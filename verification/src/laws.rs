//! What holds of the accessors taken together.
//!
//! Each law is stated over the model of the host and the result functions
//! that the contracts of the accessors speak of, so that it holds of every
//! host that keeps the contract of `HostBoundary`.

use crate::bytesrepr::Error;
use crate::host::{held, minted_key, slot_of, HostBoundary, HostState};
use crate::key::{
    decode_key, encode_key, lemma_decode_encode_key, lemma_encode_key_injective, KeyView,
};
use crate::memory_host::{sum_of, MemoryHost};
use crate::named_keys::{lemma_entries_unique, mapping_of, names_increasing, NamedKeys};
use crate::storage::{
    add_result, can_add, can_read, can_write, immutable_address, narrowed, read_local_result,
    read_result, stored_value, write_local_result, write_result,
};
use crate::uref::{AccessRights, URef};
use crate::value::{
    encode_value, lemma_decode_encode_value, lemma_encode_value_nonempty, Storable, ValueView,
};
use vstd::prelude::*;

verus! {

// ---------------------------------------------------------------------------
// slots
// ---------------------------------------------------------------------------

/// Keys name the same slot exactly when they agree but for the rights they carry.
pub proof fn lemma_same_slot(a: KeyView, b: KeyView)
    requires
        a.serializable(),
        b.serializable(),
    ensures
        slot_of(a) == slot_of(b) <==> a.normalize() == b.normalize(),
{
    if slot_of(a) == slot_of(b) {
        lemma_encode_key_injective(a.normalize(), b.normalize());
    }
}

/// Identity is by address. Two capabilities name the same slot exactly when
/// their addresses agree, whatever rights each carries.
pub proof fn lemma_capabilities_share_slot_by_address(a: URef, b: URef)
    ensures
        slot_of(KeyView::URef(a)) == slot_of(KeyView::URef(b)) <==> a.addr == b.addr,
{
    lemma_same_slot(KeyView::URef(a), KeyView::URef(b));
}

/// A write changes what its own slot reads as and what no other slot reads as.
pub proof fn lemma_write_leaves_other_slots(
    s: HostState,
    key: KeyView,
    value: ValueView,
    other: KeyView,
)
    requires
        write_result(s, key, value) is Some,
        other.serializable(),
        key.normalize() != other.normalize(),
    ensures
        read_result(write_result(s, key, value)->0, other) == read_result(s, other),
{
    lemma_same_slot(key, other);
}

// ---------------------------------------------------------------------------
// round trip
// ---------------------------------------------------------------------------

/// A stored value reads as itself.
pub proof fn lemma_stored_value(value: ValueView)
    requires
        value.serializable(),
        value.well_formed(),
    ensures
        stored_value(encode_value(value)) == Ok::<Option<ValueView>, Error>(Some(value)),
{
    lemma_decode_encode_value(value, Seq::<u8>::empty());
    lemma_encode_value_nonempty(value);
    assert(encode_value(value) + Seq::<u8>::empty() =~= encode_value(value));
}

/// Round trip. A value written through a capability that may write is read
/// back, equal to what was written, through any capability for the same
/// address that may read.
pub proof fn lemma_read_after_write<T: Storable>(s: HostState, writer: URef, reader: URef, v: T::V)
    requires
        s.holds(writer),
        s.holds(reader),
        writer.addr == reader.addr,
        writer.access_rights.spec_is_writeable(),
        reader.access_rights.spec_is_readable(),
        T::widen(v).serializable(),
        T::widen(v).well_formed(),
    ensures
        write_result(s, KeyView::URef(writer), T::widen(v)) is Some,
        read_result(
            write_result(s, KeyView::URef(writer), T::widen(v))->0,
            KeyView::URef(reader),
        ) is Some,
        narrowed::<T>(
            read_result(
                write_result(s, KeyView::URef(writer), T::widen(v))->0,
                KeyView::URef(reader),
            )->0,
        ) == Ok::<Option<T::V>, Error>(Some(v)),
{
    lemma_stored_value(T::widen(v));
    T::lemma_narrow_widen(v);
    assert(slot_of(KeyView::URef(writer)) == slot_of(KeyView::URef(reader)));
}

/// Round trip in the local partition. A value written under a key is read
/// back under that key, equal to what was written.
pub proof fn lemma_read_local_after_write_local<T: Storable>(s: HostState, key: Seq<u8>, v: T::V)
    requires
        T::widen(v).serializable(),
        T::widen(v).well_formed(),
    ensures
        narrowed::<T>(read_local_result(write_local_result(s, key, T::widen(v)), key)) == Ok::<
            Option<T::V>,
            Error,
        >(Some(v)),
{
    lemma_stored_value(T::widen(v));
    T::lemma_narrow_widen(v);
}

// ---------------------------------------------------------------------------
// partitions
// ---------------------------------------------------------------------------

/// Partition isolation, one way. A local write changes what no global key
/// reads as, whatever the bytes of the local key are.
pub proof fn lemma_local_write_not_seen_globally(
    s: HostState,
    local_key: Seq<u8>,
    value: ValueView,
    key: KeyView,
)
    ensures
        read_result(write_local_result(s, local_key, value), key) == read_result(s, key),
{
}

/// Partition isolation, the other way. A global write or merge changes what
/// no local key reads as, whatever the bytes of the local key are.
pub proof fn lemma_global_write_not_seen_locally<H: HostBoundary>(
    s: HostState,
    key: KeyView,
    value: ValueView,
    local_key: Seq<u8>,
)
    ensures
        write_result(s, key, value) matches Some(after) ==> read_local_result(after, local_key)
            == read_local_result(s, local_key),
        add_result::<H>(s, key, value) matches Some(after) ==> read_local_result(after, local_key)
            == read_local_result(s, local_key),
{
}

// ---------------------------------------------------------------------------
// rights
// ---------------------------------------------------------------------------

/// Rights enforcement. Without the right to read a capability reads nothing,
/// without the right to write it writes nothing, without the right to add it
/// merges nothing: each attempt ends the invocation.
pub proof fn lemma_missing_right_is_fatal<H: HostBoundary>(
    s: HostState,
    capability: URef,
    value: ValueView,
)
    ensures
        !capability.access_rights.spec_is_readable() ==> read_result(
            s,
            KeyView::URef(capability),
        ) is None,
        !capability.access_rights.spec_is_writeable() ==> write_result(
            s,
            KeyView::URef(capability),
            value,
        ) is None,
        !capability.access_rights.spec_is_addable() ==> add_result::<H>(
            s,
            KeyView::URef(capability),
            value,
        ) is None,
{
}

/// Rights enforcement. A capability with all three rights that the context
/// holds may read, write and add whatever has an encoding: the read and the
/// write go through, and the merge does unless the host cannot merge the two
/// values.
pub proof fn lemma_full_rights_permit<H: HostBoundary>(
    s: HostState,
    capability: URef,
    value: ValueView,
)
    requires
        s.holds(capability),
        capability.access_rights == AccessRights::ReadAddWrite,
        value.serializable(),
    ensures
        can_read(s, KeyView::URef(capability)),
        can_write(s, KeyView::URef(capability), value),
        can_add(s, KeyView::URef(capability), value),
        read_result(s, KeyView::URef(capability)) is Some,
        write_result(s, KeyView::URef(capability), value) is Some,
        add_result::<H>(s, KeyView::URef(capability), value) is Some <==> {
            let prior = held(s.global, slot_of(KeyView::URef(capability)));
            prior.len() == 0 || H::merge(prior, encode_value(value)) is Some
        },
{
}

/// No escalation. A capability that carries a right which the host has not
/// granted the context for its address, or whose address the host has granted
/// nothing for, opens no path to the store: reading, writing and adding
/// through it all end the invocation.
pub proof fn lemma_forged_capability_is_fatal<H: HostBoundary>(
    s: HostState,
    capability: URef,
    value: ValueView,
)
    requires
        !s.holds(capability),
    ensures
        read_result(s, KeyView::URef(capability)) is None,
        write_result(s, KeyView::URef(capability), value) is None,
        add_result::<H>(s, KeyView::URef(capability), value) is None,
{
}

/// Rights are assigned by the host alone. No read, write or merge, global or
/// local, changes what the context holds for any address, and publishing at
/// an immutable address does not either.
pub proof fn lemma_access_leaves_grants<H: HostBoundary>(
    s: HostState,
    key: KeyView,
    value: ValueView,
    local_key: Seq<u8>,
    addr: [u8; 32],
    named_keys: Seq<u8>,
)
    ensures
        write_result(s, key, value) matches Some(after) ==> after.granted == s.granted,
        add_result::<H>(s, key, value) matches Some(after) ==> after.granted == s.granted,
        write_local_result(s, local_key, value).granted == s.granted,
        s.publish_at_hash(addr, named_keys).granted == s.granted,
        s.unstaged().granted == s.granted,
{
}

/// Rights are assigned by the host alone. Making a capability grants rights
/// for a new address and leaves what the context holds for every other
/// address as it was.
pub proof fn lemma_issue_grants_new_address_only(
    s: HostState,
    addr: [u8; 32],
    value: Seq<u8>,
    capability: URef,
)
    requires
        !s.granted.contains_key(addr),
    ensures
        s.issue(addr, value).holds(minted_key(addr)->URef_0),
        capability.addr != addr ==> s.issue(addr, value).holds(capability) == s.holds(capability),
        s.holds(capability) ==> s.issue(addr, value).holds(capability),
{
}

// ---------------------------------------------------------------------------
// add
// ---------------------------------------------------------------------------

/// Add semantics. Merging into a slot that holds nothing stores the value as it is.
pub proof fn lemma_add_seeds_empty_slot<H: HostBoundary>(
    s: HostState,
    capability: URef,
    value: ValueView,
)
    requires
        s.holds(capability),
        capability.access_rights.spec_is_addable(),
        value.serializable(),
        held(s.global, slot_of(KeyView::URef(capability))).len() == 0,
    ensures
        add_result::<H>(s, KeyView::URef(capability), value) == Some(
            s.put_global(slot_of(KeyView::URef(capability)), encode_value(value)),
        ),
{
}

/// Add semantics of the host in memory. Merging an `i32` into a slot that
/// holds an `i32` stores their sum, which wraps around at the ends of the range.
pub proof fn lemma_add_sums_i32(s: HostState, capability: URef, x: i32, y: i32)
    requires
        s.holds(capability),
        capability.access_rights.spec_is_addable(),
        held(s.global, slot_of(KeyView::URef(capability))) == encode_value(ValueView::Int32(x)),
    ensures
        add_result::<MemoryHost>(s, KeyView::URef(capability), ValueView::Int32(y)) == Some(
            s.put_global(
                slot_of(KeyView::URef(capability)),
                encode_value(ValueView::Int32(x.wrapping_add(y))),
            ),
        ),
{
    lemma_sum_i32(x, y);
    lemma_encode_value_nonempty(ValueView::Int32(x));
}

/// Add semantics of the host in memory. Merging a `u64` into a slot that
/// holds a `u64` stores their sum, which wraps around at the end of the range.
pub proof fn lemma_add_sums_u64(s: HostState, capability: URef, x: u64, y: u64)
    requires
        s.holds(capability),
        capability.access_rights.spec_is_addable(),
        held(s.global, slot_of(KeyView::URef(capability))) == encode_value(ValueView::UInt64(x)),
    ensures
        add_result::<MemoryHost>(s, KeyView::URef(capability), ValueView::UInt64(y)) == Some(
            s.put_global(
                slot_of(KeyView::URef(capability)),
                encode_value(ValueView::UInt64(x.wrapping_add(y))),
            ),
        ),
{
    lemma_sum_u64(x, y);
    lemma_encode_value_nonempty(ValueView::UInt64(x));
}

/// Whether `value` is a number that the host in memory can add.
pub open spec fn is_number(value: ValueView) -> bool {
    value is Int32 || value is UInt64
}

/// The merge of the host in memory is defined exactly for two numbers of one kind.
pub proof fn lemma_sum_defined(a: ValueView, b: ValueView)
    requires
        a.serializable(),
        a.well_formed(),
        b.serializable(),
        b.well_formed(),
    ensures
        sum_of(encode_value(a), encode_value(b)) is Some <==> (a is Int32 && b is Int32) || (a
            is UInt64 && b is UInt64),
{
    lemma_stored_value(a);
    lemma_stored_value(b);
}

/// The merge of the host in memory does not depend on the order of the two numbers.
pub proof fn lemma_sum_commutative(a: ValueView, b: ValueView)
    requires
        is_number(a),
        is_number(b),
    ensures
        sum_of(encode_value(a), encode_value(b)) == sum_of(encode_value(b), encode_value(a)),
{
    lemma_stored_value(a);
    lemma_stored_value(b);
}

/// The merge of two `i32` in the host in memory is their wrapping sum.
pub proof fn lemma_sum_i32(x: i32, y: i32)
    ensures
        sum_of(encode_value(ValueView::Int32(x)), encode_value(ValueView::Int32(y))) == Some(
            encode_value(ValueView::Int32(x.wrapping_add(y))),
        ),
{
    lemma_stored_value(ValueView::Int32(x));
    lemma_stored_value(ValueView::Int32(y));
}

/// The merge of two `u64` in the host in memory is their wrapping sum.
pub proof fn lemma_sum_u64(x: u64, y: u64)
    ensures
        sum_of(encode_value(ValueView::UInt64(x)), encode_value(ValueView::UInt64(y))) == Some(
            encode_value(ValueView::UInt64(x.wrapping_add(y))),
        ),
{
    lemma_stored_value(ValueView::UInt64(x));
    lemma_stored_value(ValueView::UInt64(y));
}

/// Wrapping sums of `i32` can be grouped either way.
proof fn lemma_wrapping_add_i32_associative(x: i32, y: i32, z: i32)
    ensures
        x.wrapping_add(y).wrapping_add(z) == x.wrapping_add(y.wrapping_add(z)),
{
}

/// Wrapping sums of `u64` can be grouped either way.
proof fn lemma_wrapping_add_u64_associative(x: u64, y: u64, z: u64)
    ensures
        x.wrapping_add(y).wrapping_add(z) == x.wrapping_add(y.wrapping_add(z)),
{
}

/// The merge of the host in memory does not depend on how three `i32` are grouped.
pub proof fn lemma_sum_i32_associative(x: i32, y: i32, z: i32)
    ensures
        ({
            let a = encode_value(ValueView::Int32(x));
            let b = encode_value(ValueView::Int32(y));
            let c = encode_value(ValueView::Int32(z));
            &&& sum_of(a, b) is Some
            &&& sum_of(b, c) is Some
            &&& sum_of(sum_of(a, b)->0, c) == sum_of(a, sum_of(b, c)->0)
        }),
{
    lemma_sum_i32(x, y);
    lemma_sum_i32(y, z);
    lemma_sum_i32(x.wrapping_add(y), z);
    lemma_sum_i32(x, y.wrapping_add(z));
    lemma_wrapping_add_i32_associative(x, y, z);
}

/// The merge of the host in memory does not depend on how three `u64` are grouped.
pub proof fn lemma_sum_u64_associative(x: u64, y: u64, z: u64)
    ensures
        ({
            let a = encode_value(ValueView::UInt64(x));
            let b = encode_value(ValueView::UInt64(y));
            let c = encode_value(ValueView::UInt64(z));
            &&& sum_of(a, b) is Some
            &&& sum_of(b, c) is Some
            &&& sum_of(sum_of(a, b)->0, c) == sum_of(a, sum_of(b, c)->0)
        }),
{
    lemma_sum_u64(x, y);
    lemma_sum_u64(y, z);
    lemma_sum_u64(x.wrapping_add(y), z);
    lemma_sum_u64(x, y.wrapping_add(z));
    lemma_wrapping_add_u64_associative(x, y, z);
}

// ---------------------------------------------------------------------------
// minting
// ---------------------------------------------------------------------------

/// A run of a host in which capability `i` was made in state `i`, which gave
/// state `i + 1`. Calls that make no capability leave the addresses that the
/// context knows as they are, so they may lie between the states without being named.
pub open spec fn mints(states: Seq<HostState>, addrs: Seq<[u8; 32]>) -> bool {
    &&& states.len() == addrs.len() + 1
    &&& forall|i: int|
        0 <= i < addrs.len() ==> {
            &&& !(#[trigger] states[i]).granted.contains_key(addrs[i])
            &&& states[i + 1].granted.dom() == states[i].granted.dom().insert(addrs[i])
        }
}

/// In a run of a host, the context knows every address made so far.
proof fn lemma_mints_known(states: Seq<HostState>, addrs: Seq<[u8; 32]>, i: int, j: int)
    requires
        mints(states, addrs),
        0 <= i < j <= addrs.len(),
    ensures
        states[j].granted.contains_key(addrs[i]),
    decreases j - i,
{
    assert(states[i + 1].granted.dom() == states[i].granted.dom().insert(addrs[i]));
    if i + 1 < j {
        lemma_mints_known(states, addrs, i, j - 1);
        assert(states[j].granted.dom() == states[j - 1].granted.dom().insert(addrs[j - 1]));
    }
}

/// Minting uniqueness. However many capabilities a host makes in one run,
/// for new slots or for published code, no two have the same address.
pub proof fn lemma_minted_addresses_distinct(states: Seq<HostState>, addrs: Seq<[u8; 32]>)
    requires
        mints(states, addrs),
    ensures
        forall|i: int, j: int| 0 <= i < j < addrs.len() ==> addrs[i] != addrs[j],
{
    assert forall|i: int, j: int| 0 <= i < j < addrs.len() implies addrs[i] != addrs[j] by {
        lemma_mints_known(states, addrs, i, j);
        assert(!states[j].granted.contains_key(addrs[j]));
    }
}

/// Making a capability is a step of a run: the address was not known, and
/// afterwards it is the one address known in addition.
pub proof fn lemma_issue_is_a_mint(s: HostState, addr: [u8; 32], value: Seq<u8>)
    requires
        !s.granted.contains_key(addr),
    ensures
        mints(seq![s, s.issue(addr, value)], seq![addr]),
{
    assert(s.issue(addr, value).granted.dom() =~= s.granted.dom().insert(addr));
}

/// Minting uniqueness. What the host hands back for a new capability decodes
/// as a capability key, with all three rights.
pub proof fn lemma_minted_key_decodes(addr: [u8; 32])
    ensures
        decode_key(encode_key(minted_key(addr))) == Ok::<_, Error>(
            (minted_key(addr), Seq::<u8>::empty()),
        ),
        minted_key(addr) is URef,
{
    lemma_decode_encode_key(minted_key(addr), Seq::<u8>::empty());
    assert(encode_key(minted_key(addr)) + Seq::<u8>::empty() =~= encode_key(minted_key(addr)));
}

// ---------------------------------------------------------------------------
// absence
// ---------------------------------------------------------------------------

/// Absence. A local key that was never written, or that holds nothing for
/// another reason, reads as nothing.
pub proof fn lemma_unwritten_local_key_reads_none(s: HostState, key: Seq<u8>)
    ensures
        !s.local.contains_key(key) ==> held(s.local, key).len() == 0,
        held(s.local, key).len() == 0 ==> read_local_result(s, key) == Ok::<
            Option<ValueView>,
            Error,
        >(None),
{
}

/// Absence. A hash that nothing was published at reads as nothing: the read
/// goes through, since a hash needs no right to be read.
pub proof fn lemma_unused_hash_reads_none(s: HostState, hash: [u8; 32])
    requires
        !s.global.contains_key(slot_of(KeyView::Hash(hash))),
    ensures
        read_result(s, KeyView::Hash(hash)) == Some(Ok::<Option<ValueView>, Error>(None)),
{
}

/// Absence. Any key through which the context may read reads as nothing
/// while its slot holds nothing.
pub proof fn lemma_unused_key_reads_none(s: HostState, key: KeyView)
    requires
        can_read(s, key),
        held(s.global, slot_of(key)).len() == 0,
    ensures
        read_result(s, key) == Some(Ok::<Option<ValueView>, Error>(None)),
{
}

// ---------------------------------------------------------------------------
// registration
// ---------------------------------------------------------------------------

/// Registration determinism. The immutable address of published code is the
/// same whenever the code, the name and the mapping of the directory are the
/// same, whatever else the store holds and in whatever order the directory
/// was filled.
pub proof fn lemma_immutable_address_stable<H: HostBoundary>(
    s1: HostState,
    s2: HostState,
    name: Seq<char>,
    named_keys1: NamedKeys,
    named_keys2: NamedKeys,
)
    requires
        s1.code == s2.code,
        names_increasing(named_keys1@),
        names_increasing(named_keys2@),
        mapping_of(named_keys1@) == mapping_of(named_keys2@),
    ensures
        immutable_address::<H>(s1, name, named_keys1) == immutable_address::<H>(
            s2,
            name,
            named_keys2,
        ),
{
    lemma_entries_unique(named_keys1@, named_keys2@);
}

/// Registration determinism. Publishing the same content at its immutable
/// address a second time changes nothing.
pub proof fn lemma_republishing_changes_nothing(s: HostState, addr: [u8; 32], named_keys: Seq<u8>)
    ensures
        s.publish_at_hash(addr, named_keys).publish_at_hash(addr, named_keys) == s.publish_at_hash(
            addr,
            named_keys,
        ),
{
    let once = s.publish_at_hash(addr, named_keys);
    assert(once.publish_at_hash(addr, named_keys).global =~= once.global);
}

} // verus!
