//! Reading, writing and merging values through capabilities, in the global
//! partition and in the local one, and publishing code.
//!
//! Every function here encodes its arguments, makes the host calls, and
//! decodes what comes back. What the store holds afterwards and what is
//! returned are stated over the model of the host in `crate::host`.

use crate::bytesrepr::{deserialize, exactly, fits_u32, Error, ToBytes};
use crate::host::{contract_record, held, minted_key, slot_of, Abort, HostBoundary, HostState};
use crate::key::{encode_key, lemma_decode_encode_key, Key, KeyView};
use crate::named_keys::{
    encode_named_keys, lemma_decode_encode_named_keys, named_keys_serializable, NamedKeys,
};
use crate::turef::{ContractRef, TURef};
use crate::uref::{AccessRights, URef};
use crate::value::{
    decode_value, encode_value, Contract, ContractView, Storable, Value, ValueView,
};
use vstd::prelude::*;
use vstd::utf8::*;

verus! {

/// What came of a read: nothing stored, a value, or bytes that are no value.
pub type Found<T> = Result<Option<T>, Error>;

/// A read result with its value as a mathematical value.
pub open spec fn found_view<T: View>(found: Found<T>) -> Found<T::V> {
    match found {
        Ok(Some(value)) => Ok(Some(value@)),
        Ok(None) => Ok(None),
        Err(e) => Err(e),
    }
}

/// What a slot that holds `bytes` reads as: nothing when it is empty, else
/// the one value that `bytes` encodes.
pub open spec fn stored_value(bytes: Seq<u8>) -> Found<ValueView> {
    if bytes.len() == 0 {
        Ok(None)
    } else {
        match exactly(decode_value(bytes)) {
            Ok(value) => Ok(Some(value)),
            Err(e) => Err(e),
        }
    }
}

/// What a stored value reads as when a `T` is asked for: a value of another
/// kind is an error, and no value is no error.
pub open spec fn narrowed<T: Storable>(found: Found<ValueView>) -> Found<T::V> {
    match found {
        Ok(Some(value)) => match T::narrow(value) {
            Some(t) => Ok(Some(t)),
            None => Err(Error::TypeMismatch),
        },
        Ok(None) => Ok(None),
        Err(e) => Err(e),
    }
}

/// Whether a read through `key` goes through in state `s`: the key must have
/// an encoding, and the host must let the context read through it.
pub open spec fn can_read(s: HostState, key: KeyView) -> bool {
    key.serializable() && s.permits(key, AccessRights::Read)
}

/// What reading through `key` yields in state `s`, or nothing where the read
/// ends the invocation.
pub open spec fn read_result(s: HostState, key: KeyView) -> Option<Found<ValueView>> {
    if can_read(s, key) {
        Some(stored_value(held(s.global, slot_of(key))))
    } else {
        None
    }
}

/// What reading `key` of the local partition yields in state `s`.
pub open spec fn read_local_result(s: HostState, key: Seq<u8>) -> Found<ValueView> {
    stored_value(held(s.local, key))
}

/// The state after a call that changed nothing in the store: untouched where
/// the arguments had no encoding, so that the host was never called, and
/// else with nothing staged.
pub open spec fn ended(s: HostState, reached_host: bool) -> HostState {
    if reached_host {
        s.unstaged()
    } else {
        s
    }
}

/// A buffer of `len` zero bytes.
fn alloc_bytes(len: usize) -> (r: Vec<u8>)
    ensures
        r@ == Seq::new(len as nat, |i: int| 0u8),
{
    let mut buffer: Vec<u8> = Vec::new();
    let mut i: usize = 0;
    while i < len
        invariant
            i <= len,
            buffer@ == Seq::new(i as nat, |j: int| 0u8),
        decreases len - i,
    {
        buffer.push(0u8);
        i += 1;
        assert(buffer@ =~= Seq::new(i as nat, |j: int| 0u8));
    }
    buffer
}

/// Copies out the `len` bytes that the host has just staged and decodes them.
fn take_staged<H: HostBoundary>(host: &mut H, len: usize) -> (r: Found<Value>)
    requires
        old(host).inv(),
        old(host)@.staged is Some,
        old(host)@.staged->0.len() == len,
    ensures
        final(host).inv(),
        final(host)@ == old(host)@.unstaged(),
        found_view(r) == stored_value(old(host)@.staged->0),
{
    let mut buffer = alloc_bytes(len);
    host.materialize(&mut buffer);
    if len == 0 {
        Ok(None)
    } else {
        match deserialize::<Value>(buffer.as_slice()) {
            Ok(value) => Ok(Some(value)),
            Err(e) => Err(e),
        }
    }
}

/// Reads the value in the slot of the global partition that `key` names.
///
/// The read ends the invocation exactly when the key has no encoding or is a
/// capability that the context does not hold or that lacks the right to read.
/// Otherwise an empty slot reads as `None`, and bytes that are not one value
/// as the decoding error. The store is left as it was.
pub fn read_untyped<H: HostBoundary>(host: &mut H, key: &Key) -> (r: Result<Found<Value>, Abort>)
    requires
        old(host).inv(),
    ensures
        final(host).inv(),
        final(host)@ == ended(old(host)@, key@.serializable()),
        match r {
            Ok(found) => read_result(old(host)@, key@) == Some(found_view(found)),
            Err(_) => read_result(old(host)@, key@) is None,
        },
{
    let key_bytes = match key.to_bytes() {
        Ok(bytes) => bytes,
        Err(_) => {
            return Err(Abort);
        },
    };
    proof {
        lemma_decode_encode_key(key@, Seq::<u8>::empty());
        assert(encode_key(key@) + Seq::<u8>::empty() =~= encode_key(key@));
    }
    let value_size = match host.stage_global(key_bytes.as_slice()) {
        Ok(size) => size,
        Err(abort) => {
            return Err(abort);
        },
    };
    Ok(take_staged(host, value_size))
}

/// Narrows what a read found to the kind `T`.
pub fn try_into<T: Storable>(maybe_value: Option<Value>) -> (r: Found<T>)
    ensures
        found_view(r) == narrowed::<T>(found_view(Ok::<Option<Value>, Error>(maybe_value))),
{
    match maybe_value {
        None => Ok(None),
        Some(value) => match T::from_value(value) {
            Some(t) => Ok(Some(t)),
            None => Err(Error::TypeMismatch),
        },
    }
}

/// Reads the value behind the capability `turef` as a `T`.
///
/// The read ends the invocation exactly when the context does not hold the
/// capability or the capability lacks the right to read. Otherwise an empty
/// slot reads as `None`, bytes that are not one value as the decoding error,
/// and a value of another kind as `TypeMismatch`.
pub fn read<H: HostBoundary, T: Storable>(host: &mut H, turef: TURef<T>) -> (r: Result<
    Found<T>,
    Abort,
>)
    requires
        old(host).inv(),
    ensures
        final(host).inv(),
        final(host)@ == old(host)@.unstaged(),
        match r {
            Ok(found) => read_result(old(host)@, turef.key_view()) matches Some(stored)
                && found_view(found) == narrowed::<T>(stored),
            Err(_) => read_result(old(host)@, turef.key_view()) is None,
        },
{
    let key = turef.key();
    match read_untyped(host, &key) {
        Ok(Ok(maybe_value)) => Ok(try_into(maybe_value)),
        Ok(Err(e)) => Ok(Err(e)),
        Err(abort) => Err(abort),
    }
}

/// Reads the value that the local partition holds for the encoded key `key_bytes`.
fn read_untyped_local<H: HostBoundary>(host: &mut H, key_bytes: &[u8]) -> (r: Found<Value>)
    requires
        old(host).inv(),
    ensures
        final(host).inv(),
        final(host)@ == old(host)@.unstaged(),
        found_view(r) == read_local_result(old(host)@, key_bytes@),
{
    let value_size = host.stage_local(key_bytes);
    take_staged(host, value_size)
}

/// Reads the value that the local partition holds for `key` as a `V`.
///
/// A key without an encoding gives the encoding error and never reaches the
/// host. Otherwise a key that holds nothing reads as `None`, bytes that are
/// not one value as the decoding error, and a value of another kind as
/// `TypeMismatch`. No local read ends the invocation.
pub fn read_local<H: HostBoundary, K: ToBytes, V: Storable>(host: &mut H, key: K) -> (r: Found<V>)
    requires
        old(host).inv(),
    ensures
        final(host).inv(),
        match key.encoding() {
            Ok(key_bytes) => final(host)@ == old(host)@.unstaged() && found_view(r) == narrowed::<
                V,
            >(read_local_result(old(host)@, key_bytes)),
            Err(e) => final(host)@ == old(host)@ && r == Err::<Option<V>, Error>(e),
        },
{
    let key_bytes = match key.to_bytes() {
        Ok(bytes) => bytes,
        Err(e) => {
            return Err(e);
        },
    };
    match read_untyped_local(host, key_bytes.as_slice()) {
        Ok(maybe_value) => try_into(maybe_value),
        Err(e) => Err(e),
    }
}

/// Whether a write of `value` through `key` goes through in state `s`: both
/// must have an encoding, and the host must let the context write through the key.
pub open spec fn can_write(s: HostState, key: KeyView, value: ValueView) -> bool {
    key.serializable() && value.serializable() && s.permits(key, AccessRights::Write)
}

/// The state after writing `value` through `key` in state `s`, or nothing
/// where the write ends the invocation.
pub open spec fn write_result(s: HostState, key: KeyView, value: ValueView) -> Option<HostState> {
    if can_write(s, key, value) {
        Some(s.put_global(slot_of(key), encode_value(value)))
    } else {
        None
    }
}

/// Overwrites the slot that `key` names with `value`.
fn write_untyped<H: HostBoundary>(host: &mut H, key: &Key, value: &Value) -> (r: Result<(), Abort>)
    requires
        old(host).inv(),
    ensures
        final(host).inv(),
        match r {
            Ok(_) => write_result(old(host)@, key@, value@) == Some(final(host)@),
            Err(_) => write_result(old(host)@, key@, value@) is None && final(host)@ == ended(
                old(host)@,
                key@.serializable() && value@.serializable(),
            ),
        },
{
    let key_bytes = match key.to_bytes() {
        Ok(bytes) => bytes,
        Err(_) => {
            return Err(Abort);
        },
    };
    let value_bytes = match value.to_bytes() {
        Ok(bytes) => bytes,
        Err(_) => {
            return Err(Abort);
        },
    };
    proof {
        lemma_decode_encode_key(key@, Seq::<u8>::empty());
        assert(encode_key(key@) + Seq::<u8>::empty() =~= encode_key(key@));
    }
    host.write_global(key_bytes.as_slice(), value_bytes.as_slice())
}

/// Overwrites the slot behind the capability `turef` with `t`, whatever it held.
///
/// The write ends the invocation exactly when the context does not hold the
/// capability, the capability lacks the right to write, or `t` has no encoding.
pub fn write<H: HostBoundary, T: Storable>(host: &mut H, turef: TURef<T>, t: T) -> (r: Result<
    (),
    Abort,
>)
    requires
        old(host).inv(),
    ensures
        final(host).inv(),
        T::widen(t@).well_formed(),
        match r {
            Ok(_) => write_result(old(host)@, turef.key_view(), T::widen(t@)) == Some(
                final(host)@,
            ),
            Err(_) => write_result(old(host)@, turef.key_view(), T::widen(t@)) is None
                && final(host)@ == ended(old(host)@, T::widen(t@).serializable()),
        },
{
    let key = turef.key();
    let value = t.into_value();
    write_untyped(host, &key, &value)
}

/// The state after giving the encoded key `key` of the local partition `value`.
pub open spec fn write_local_result(s: HostState, key: Seq<u8>, value: ValueView) -> HostState {
    s.put_local(key, encode_value(value))
}

/// Gives the encoded key `key_bytes` of the local partition the value `value`.
fn write_untyped_local<H: HostBoundary>(host: &mut H, key_bytes: &[u8], value: &Value) -> (r:
    Result<(), Abort>)
    requires
        old(host).inv(),
    ensures
        final(host).inv(),
        r is Ok <==> value@.serializable(),
        final(host)@ == if value@.serializable() {
            write_local_result(old(host)@, key_bytes@, value@)
        } else {
            old(host)@
        },
{
    let value_bytes = match value.to_bytes() {
        Ok(bytes) => bytes,
        Err(_) => {
            return Err(Abort);
        },
    };
    host.write_local(key_bytes, value_bytes.as_slice());
    Ok(())
}

/// Gives `key` of the local partition the value `value`, whatever it held.
///
/// The write ends the invocation exactly when `key` or `value` has no
/// encoding, and then never reaches the host.
pub fn write_local<H: HostBoundary, K: ToBytes, V: Storable>(host: &mut H, key: K, value: V) -> (r:
    Result<(), Abort>)
    requires
        old(host).inv(),
    ensures
        final(host).inv(),
        V::widen(value@).well_formed(),
        r is Ok <==> key.encoding() is Ok && V::widen(value@).serializable(),
        final(host)@ == if r is Ok {
            write_local_result(old(host)@, key.encoding()->Ok_0, V::widen(value@))
        } else {
            old(host)@
        },
{
    let value = value.into_value();
    let key_bytes = match key.to_bytes() {
        Ok(bytes) => bytes,
        Err(_) => {
            return Err(Abort);
        },
    };
    write_untyped_local(host, key_bytes.as_slice(), &value)
}

/// Whether the host looks at a merge of `value` through `key` in state `s`:
/// both must have an encoding, and the host must let the context add through the key.
pub open spec fn can_add(s: HostState, key: KeyView, value: ValueView) -> bool {
    key.serializable() && value.serializable() && s.permits(key, AccessRights::Add)
}

/// The state after merging `value` into the slot of `key` in state `s` of a
/// host `H`, or nothing where the merge ends the invocation. What the merge
/// of two values is, the host says: `H::merge`.
pub open spec fn add_result<H: HostBoundary>(s: HostState, key: KeyView, value: ValueView) -> Option<
    HostState,
> {
    if can_add(s, key, value) {
        let slot = slot_of(key);
        let delta = encode_value(value);
        s.merge_into(slot, delta, H::merge(held(s.global, slot), delta))
    } else {
        None
    }
}

/// Merges `value` into the slot that `key` names.
fn add_untyped<H: HostBoundary>(host: &mut H, key: &Key, value: &Value) -> (r: Result<(), Abort>)
    requires
        old(host).inv(),
    ensures
        final(host).inv(),
        match r {
            Ok(_) => add_result::<H>(old(host)@, key@, value@) == Some(final(host)@),
            Err(_) => add_result::<H>(old(host)@, key@, value@) is None && final(host)@ == ended(
                old(host)@,
                key@.serializable() && value@.serializable(),
            ),
        },
{
    let key_bytes = match key.to_bytes() {
        Ok(bytes) => bytes,
        Err(_) => {
            return Err(Abort);
        },
    };
    let value_bytes = match value.to_bytes() {
        Ok(bytes) => bytes,
        Err(_) => {
            return Err(Abort);
        },
    };
    proof {
        lemma_decode_encode_key(key@, Seq::<u8>::empty());
        assert(encode_key(key@) + Seq::<u8>::empty() =~= encode_key(key@));
    }
    host.add_global(key_bytes.as_slice(), value_bytes.as_slice())
}

/// Merges `t` into the value behind the capability `turef`. A slot that holds
/// nothing takes `t` as it is.
///
/// The merge ends the invocation exactly when the context does not hold the
/// capability, the capability lacks the right to add, `t` has no encoding, or
/// the host cannot merge `t` with what the slot holds.
pub fn add<H: HostBoundary, T: Storable>(host: &mut H, turef: TURef<T>, t: T) -> (r: Result<
    (),
    Abort,
>)
    requires
        old(host).inv(),
    ensures
        final(host).inv(),
        T::widen(t@).well_formed(),
        match r {
            Ok(_) => add_result::<H>(old(host)@, turef.key_view(), T::widen(t@)) == Some(
                final(host)@,
            ),
            Err(_) => add_result::<H>(old(host)@, turef.key_view(), T::widen(t@)) is None
                && final(host)@ == ended(old(host)@, T::widen(t@).serializable()),
        },
{
    let key = turef.key();
    let value = t.into_value();
    add_untyped(host, &key, &value)
}

/// The record under which the running code of state `s` is published with the directory `named_keys`.
pub open spec fn published_record(s: HostState, named_keys: NamedKeys) -> ValueView {
    ValueView::Contract(ContractView { code: s.code, named_keys: named_keys@ })
}

/// Whether the host can publish the running code of state `s` with the directory `named_keys`.
pub open spec fn can_publish(s: HostState, named_keys: NamedKeys) -> bool {
    named_keys_serializable(named_keys@) && fits_u32(s.code.len())
}

/// The address at which a host `H` publishes the running code of state `s`
/// under the name `name` with the directory `named_keys`: it depends on
/// these three and on nothing else.
pub open spec fn immutable_address<H: HostBoundary>(
    s: HostState,
    name: Seq<char>,
    named_keys: NamedKeys,
) -> [u8; 32] {
    H::content_address(s.code, encode_utf8(name), encode_named_keys(named_keys@))
}

/// Encodes a directory and shows what the host will make of the encoding.
fn directory_bytes<H: HostBoundary>(host: &H, named_keys: &NamedKeys) -> (r: Option<Vec<u8>>)
    ensures
        r is Some <==> named_keys_serializable(named_keys@),
        r matches Some(bytes) ==> {
            &&& bytes@ == encode_named_keys(named_keys@)
            &&& host@.can_publish(bytes@) == can_publish(host@, *named_keys)
            &&& encode_value(published_record(host@, *named_keys)) == contract_record(
                host@.code,
                bytes@,
            )
        },
{
    match named_keys.to_bytes() {
        Ok(bytes) => {
            named_keys.ordered_names();
            proof {
                lemma_decode_encode_named_keys(named_keys@, Seq::<u8>::empty());
                assert(bytes@ + Seq::<u8>::empty() =~= bytes@);
                assert(encode_value(published_record(host@, *named_keys)) =~= contract_record(
                    host@.code,
                    bytes@,
                ));
            }
            Some(bytes)
        },
        Err(_) => None,
    }
}

/// Publishes the running code under the name `name`, with the directory
/// `named_keys`, behind a capability that the host makes for it.
///
/// The capability has an address that the context knew no capability for and
/// carries all three rights, which the host grants with it. Publishing ends
/// the invocation exactly when the directory or the code has no encoding or
/// the host has no address left.
pub fn store_function<H: HostBoundary>(host: &mut H, name: &str, named_keys: NamedKeys) -> (r:
    Result<ContractRef, Abort>)
    requires
        old(host).inv(),
    ensures
        final(host).inv(),
        r is Ok <==> can_publish(old(host)@, named_keys) && old(host).can_issue(),
        match r {
            Ok(contract) => contract matches ContractRef::URef(turef) && {
                &&& turef@.access_rights == AccessRights::ReadAddWrite
                &&& !old(host)@.granted.contains_key(turef@.addr)
                &&& final(host)@ == old(host)@.issue(
                    turef@.addr,
                    encode_value(published_record(old(host)@, named_keys)),
                )
            },
            Err(_) => final(host)@ == ended(old(host)@, named_keys_serializable(named_keys@)),
        },
{
    let keys_bytes = match directory_bytes(&*host, &named_keys) {
        Some(bytes) => bytes,
        None => {
            return Err(Abort);
        },
    };
    match host.register_mutable(name.as_bytes(), keys_bytes.as_slice()) {
        Ok(addr) => Ok(ContractRef::URef(TURef::new(addr, AccessRights::ReadAddWrite))),
        Err(abort) => Err(abort),
    }
}

/// Publishes the running code under the name `name`, with the directory
/// `named_keys`, at the address that the host derives from the three.
///
/// The address carries no rights: the code can be read by whoever knows it
/// and changed by nobody. Publishing ends the invocation exactly when the
/// directory or the code has no encoding.
pub fn store_function_at_hash<H: HostBoundary>(
    host: &mut H,
    name: &str,
    named_keys: NamedKeys,
) -> (r: Result<ContractRef, Abort>)
    requires
        old(host).inv(),
    ensures
        final(host).inv(),
        r is Ok <==> can_publish(old(host)@, named_keys),
        match r {
            Ok(contract) => {
                &&& contract == ContractRef::Hash(
                    immutable_address::<H>(old(host)@, name@, named_keys),
                )
                &&& final(host)@ == old(host)@.put_global(
                    slot_of(contract.key_view()),
                    encode_value(published_record(old(host)@, named_keys)),
                )
            },
            Err(_) => final(host)@ == ended(old(host)@, named_keys_serializable(named_keys@)),
        },
{
    let keys_bytes = match directory_bytes(&*host, &named_keys) {
        Some(bytes) => bytes,
        None => {
            return Err(Abort);
        },
    };
    match host.register_immutable(name.as_bytes(), keys_bytes.as_slice()) {
        Ok(addr) => Ok(ContractRef::Hash(addr)),
        Err(abort) => Err(abort),
    }
}

/// Has the host make a capability for a new slot that holds `init`.
///
/// The capability has an address that the context knew no capability for and
/// carries all three rights, which the host grants with it: the host chooses
/// both. Minting ends the invocation exactly when `init` has no encoding or
/// the host has no address left.
pub fn new_turef<H: HostBoundary, T: Storable>(host: &mut H, init: T) -> (r: Result<
    TURef<T>,
    Abort,
>)
    requires
        old(host).inv(),
    ensures
        final(host).inv(),
        T::widen(init@).well_formed(),
        r is Ok <==> T::widen(init@).serializable() && old(host).can_issue(),
        match r {
            Ok(turef) => {
                &&& turef@.access_rights == AccessRights::ReadAddWrite
                &&& !old(host)@.granted.contains_key(turef@.addr)
                &&& final(host)@ == old(host)@.issue(
                    turef@.addr,
                    encode_value(T::widen(init@)),
                )
            },
            Err(_) => final(host)@ == ended(old(host)@, T::widen(init@).serializable()),
        },
{
    let value = init.into_value();
    let value_bytes = match value.to_bytes() {
        Ok(bytes) => bytes,
        Err(_) => {
            return Err(Abort);
        },
    };
    let key_bytes = match host.mint_reference(value_bytes.as_slice()) {
        Ok(bytes) => bytes,
        Err(abort) => {
            return Err(abort);
        },
    };
    proof {
        let addr = choose|addr: [u8; 32]|
            {
                &&& key_bytes@ == encode_key(#[trigger] minted_key(addr))
                &&& !old(host)@.granted.contains_key(addr)
                &&& host@ == old(host)@.issue(addr, value_bytes@)
            };
        lemma_decode_encode_key(minted_key(addr), Seq::<u8>::empty());
        assert(key_bytes@ + Seq::<u8>::empty() =~= key_bytes@);
    }
    match deserialize::<Key>(key_bytes.as_slice()) {
        Ok(Key::URef(uref)) => Ok(TURef::from_uref(uref)),
        // A host that keeps its word has handed back a capability.
        _ => Err(Abort),
    }
}

} // verus!
