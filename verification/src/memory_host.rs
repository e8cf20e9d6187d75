//! A host that keeps the whole store in memory.
//!
//! It does what `HostBoundary` asks of a host, and every method is proved to.
//! Its merge is numeric addition. Its addresses for capabilities count up from
//! zero, and its address for immutable content is a small digest of the
//! content, good enough to tell apart what a test publishes and not meant to
//! resist anyone who wants two contents to meet.

use crate::byte_map::ByteMap;
use crate::bytesrepr::{bytes_to_bytes, deserialize, exactly, ToBytes};
use crate::host::{contract_record, minted_key, slot_of, Abort, HostBoundary, HostState};
use crate::key::{decode_key, encode_key, Key};
use crate::named_keys::NamedKeys;
use crate::uref::{addr_of, lemma_addr_of, AccessRights, URef};
use crate::value::{decode_value, encode_value, Value, ValueView, CONTRACT_TAG};
use vstd::bytes::*;
use vstd::prelude::*;
use vstd::slice::*;

verus! {

// ---------------------------------------------------------------------------
// addresses
// ---------------------------------------------------------------------------

/// The bytes of the address of the `n`-th capability: `n`, least significant
/// byte first, then zeros.
pub open spec fn counter_address(n: u64) -> Seq<u8> {
    spec_u64_to_le_bytes(n) + Seq::new(24, |i: int| 0u8)
}

/// The count that the first eight bytes of an address spell.
pub open spec fn counter_of(addr: Seq<u8>) -> u64 {
    spec_u64_from_le_bytes(addr.subrange(0, 8))
}

/// The count of a counted address is its count.
proof fn lemma_counter_of_address(n: u64)
    ensures
        counter_of(counter_address(n)) == n,
        counter_address(n).len() == 32,
{
    lemma_auto_spec_u64_to_from_le_bytes();
    assert(counter_address(n).subrange(0, 8) =~= spec_u64_to_le_bytes(n));
}

/// Different counts give different addresses.
pub proof fn lemma_counter_address_injective(n: u64, m: u64)
    requires
        counter_address(n) == counter_address(m),
    ensures
        n == m,
{
    lemma_counter_of_address(n);
    lemma_counter_of_address(m);
}

/// The count of `addr`, if `addr` is the address of a count.
fn address_counter(addr: &[u8; 32]) -> (r: Option<u64>)
    ensures
        match r {
            Some(n) => addr@ == counter_address(n),
            None => forall|n: u64| addr@ != counter_address(n),
        },
{
    let mut i: usize = 8;
    while i < 32
        invariant
            8 <= i <= 32,
            forall|j: int| 8 <= j < i ==> addr@[j] == 0u8,
        decreases 32 - i,
    {
        if addr[i] != 0 {
            assert forall|n: u64| addr@ != counter_address(n) by {
                lemma_auto_spec_u64_to_from_le_bytes();
                assert(counter_address(n)[i as int] == 0u8);
            }
            return None;
        }
        i += 1;
    }
    let n = u64_from_le_bytes(slice_subrange(addr.as_slice(), 0, 8));
    proof {
        lemma_auto_spec_u64_to_from_le_bytes();
        assert(addr@ =~= counter_address(n));
    }
    Some(n)
}

/// The address of the `n`-th capability.
fn make_address(n: u64) -> (r: [u8; 32])
    ensures
        r@ == counter_address(n),
{
    let le = u64_to_le_bytes(n);
    proof {
        lemma_auto_spec_u64_to_from_le_bytes();
    }
    let mut addr = [0u8; 32];
    let mut i: usize = 0;
    while i < 8
        invariant
            i <= 8,
            le@.len() == 8,
            forall|j: int| 0 <= j < i ==> addr@[j] == le@[j],
            forall|j: int| i <= j < 32 ==> addr@[j] == 0u8,
        decreases 8 - i,
    {
        addr[i] = le[i];
        i += 1;
    }
    assert(addr@ =~= counter_address(n));
    addr
}

/// One step of the digest: the old byte times 31 plus the new one, modulo 256.
pub open spec fn mix(acc: u8, byte: u8) -> u8 {
    ((acc * 31 + byte) % 256) as u8
}

/// The digest state after `data` was taken in: byte `i` of `data` is mixed
/// into place `i mod 32` of the state.
pub open spec fn absorb(state: Seq<u8>, data: Seq<u8>) -> Seq<u8>
    decreases data.len(),
{
    if data.len() == 0 {
        state
    } else {
        let before = absorb(state, data.drop_last());
        let at = (data.len() - 1) % 32;
        before.update(at, mix(before[at], data.last()))
    }
}

/// The digest of published content: from a state of zeros, the code, the
/// name and the encoded directory are taken in, in this order.
pub open spec fn digest(code: Seq<u8>, name: Seq<u8>, named_keys: Seq<u8>) -> Seq<u8> {
    absorb(absorb(absorb(Seq::new(32, |i: int| 0u8), code), name), named_keys)
}

/// Taking data in leaves the digest state 32 bytes long.
proof fn lemma_absorb_len(state: Seq<u8>, data: Seq<u8>)
    requires
        state.len() == 32,
    ensures
        absorb(state, data).len() == 32,
    decreases data.len(),
{
    if data.len() > 0 {
        lemma_absorb_len(state, data.drop_last());
    }
}

/// Takes `data` into the digest state.
fn absorb_into(state: &mut [u8; 32], data: &[u8])
    ensures
        final(state)@ == absorb(old(state)@, data@),
{
    let mut i: usize = 0;
    while i < data.len()
        invariant
            i <= data@.len(),
            state@ == absorb(old(state)@, data@.take(i as int)),
        decreases data@.len() - i,
    {
        let at = i % 32;
        let mixed = ((state[at] as u32 * 31 + data[i] as u32) % 256) as u8;
        proof {
            let taken = data@.take(i + 1);
            assert(taken.drop_last() =~= data@.take(i as int));
            assert(taken.last() == data@[i as int]);
            lemma_absorb_len(old(state)@, data@.take(i as int));
        }
        state[at] = mixed;
        i += 1;
    }
    assert(data@.take(i as int) =~= data@);
}

/// The digest of published content, as an address.
fn content_digest(code: &[u8], name: &[u8], named_keys: &[u8]) -> (r: [u8; 32])
    ensures
        r == addr_of(digest(code@, name@, named_keys@)),
{
    let mut state = [0u8; 32];
    assert(state@ =~= Seq::new(32, |i: int| 0u8));
    absorb_into(&mut state, code);
    absorb_into(&mut state, name);
    absorb_into(&mut state, named_keys);
    proof {
        lemma_addr_of(state);
    }
    state
}

// ---------------------------------------------------------------------------
// merging
// ---------------------------------------------------------------------------

/// The sum of two stored numbers of one kind, wrapping around at the ends of
/// its range. Nothing else has a sum.
pub open spec fn sum_of(prior: Seq<u8>, delta: Seq<u8>) -> Option<Seq<u8>> {
    match (exactly(decode_value(prior)), exactly(decode_value(delta))) {
        (Ok(ValueView::Int32(a)), Ok(ValueView::Int32(b))) => Some(
            encode_value(ValueView::Int32(a.wrapping_add(b))),
        ),
        (Ok(ValueView::UInt64(a)), Ok(ValueView::UInt64(b))) => Some(
            encode_value(ValueView::UInt64(a.wrapping_add(b))),
        ),
        _ => None,
    }
}

/// Adds two stored numbers.
fn merge_values(prior: &[u8], delta: &[u8]) -> (r: Option<Vec<u8>>)
    ensures
        match r {
            Some(sum) => sum_of(prior@, delta@) == Some(sum@),
            None => sum_of(prior@, delta@) is None,
        },
{
    let sum = match (deserialize::<Value>(prior), deserialize::<Value>(delta)) {
        (Ok(Value::Int32(a)), Ok(Value::Int32(b))) => Value::Int32(a.wrapping_add(b)),
        (Ok(Value::UInt64(a)), Ok(Value::UInt64(b))) => Value::UInt64(a.wrapping_add(b)),
        _ => {
            return None;
        },
    };
    match sum.to_bytes() {
        Ok(bytes) => Some(bytes),
        Err(_) => None,
    }
}

// ---------------------------------------------------------------------------
// keys
// ---------------------------------------------------------------------------

/// A key that was decoded has an encoding.
proof fn lemma_decoded_key_serializable(bytes: Seq<u8>)
    requires
        decode_key(bytes) is Ok,
    ensures
        decode_key(bytes)->Ok_0.0.serializable(),
        decode_key(bytes)->Ok_0.0.normalize().serializable(),
{
}

/// The slot behind the capabilities for `addr`.
fn capability_slot(addr: [u8; 32]) -> (r: Vec<u8>)
    ensures
        r@ == slot_of(minted_key(addr)),
{
    match Key::URef(URef::new(addr, AccessRights::NoAccess)).to_bytes() {
        Ok(slot) => slot,
        Err(_) => Vec::new(),
    }
}

// ---------------------------------------------------------------------------
// the host
// ---------------------------------------------------------------------------

/// A host with its store in memory, serving one context.
#[derive(Debug)]
pub struct MemoryHost {
    global: ByteMap,
    local: ByteMap,
    staged: Option<Vec<u8>>,
    /// What the context holds for the address of each count so far.
    grants: Vec<AccessRights>,
    code: Vec<u8>,
}

/// The rights granted for each counted address: `grants[n]` for the address of `n`.
pub open spec fn grants_map(grants: Seq<AccessRights>) -> Map<[u8; 32], AccessRights> {
    Map::new(
        |addr: [u8; 32]| exists|n: u64| n < grants.len() && addr@ == counter_address(n),
        |addr: [u8; 32]| grants[counter_of(addr@) as int],
    )
}

/// The address of the `n`-th capability has the `n`-th grant.
proof fn lemma_grants_map(grants: Seq<AccessRights>, addr: [u8; 32], n: u64)
    requires
        addr@ == counter_address(n),
    ensures
        grants_map(grants).contains_key(addr) <==> n < grants.len(),
        n < grants.len() ==> grants_map(grants)[addr] == grants[n as int],
{
    lemma_counter_of_address(n);
    if grants_map(grants).contains_key(addr) {
        let m = choose|m: u64| m < grants.len() && addr@ == counter_address(m);
        lemma_counter_address_injective(n, m);
    }
}

/// Granting the next address extends the map by it.
proof fn lemma_grants_map_push(grants: Seq<AccessRights>, addr: [u8; 32], rights: AccessRights)
    requires
        grants.len() < u64::MAX,
        addr@ == counter_address(grants.len() as u64),
    ensures
        !grants_map(grants).contains_key(addr),
        grants_map(grants.push(rights)) == grants_map(grants).insert(addr, rights),
{
    let n = grants.len() as u64;
    let before = grants_map(grants);
    let after = grants_map(grants.push(rights));
    lemma_grants_map(grants, addr, n);
    assert forall|a: [u8; 32]| after.contains_key(a) <==> before.insert(addr, rights).contains_key(
        a,
    ) by {
        if after.contains_key(a) {
            let m = choose|m: u64| m < grants.len() + 1 && a@ == counter_address(m);
            if m == n {
                assert(a =~= addr);
            } else {
                assert(m < grants.len() && a@ == counter_address(m));
            }
        }
        if before.contains_key(a) {
            let m = choose|m: u64| m < grants.len() && a@ == counter_address(m);
            assert(m < grants.len() + 1 && a@ == counter_address(m));
        }
        if a == addr {
            assert(n < grants.len() + 1 && a@ == counter_address(n));
        }
    }
    assert forall|a: [u8; 32]| after.contains_key(a) implies after[a] == before.insert(
        addr,
        rights,
    )[a] by {
        let m = choose|m: u64| m < grants.len() + 1 && a@ == counter_address(m);
        lemma_counter_of_address(m);
        if m == n {
            assert(a =~= addr);
        }
    }
    assert(after =~= before.insert(addr, rights));
}

/// Changing the grant of one address changes the map at that address.
proof fn lemma_grants_map_update(
    grants: Seq<AccessRights>,
    addr: [u8; 32],
    n: u64,
    rights: AccessRights,
)
    requires
        n < grants.len(),
        addr@ == counter_address(n),
    ensures
        grants_map(grants.update(n as int, rights)) == grants_map(grants).insert(addr, rights),
{
    let before = grants_map(grants);
    let after = grants_map(grants.update(n as int, rights));
    assert forall|a: [u8; 32]| after.contains_key(a) <==> before.insert(addr, rights).contains_key(
        a,
    ) by {
        if after.contains_key(a) {
            let m = choose|m: u64| m < grants.len() && a@ == counter_address(m);
            assert(m < grants.len() && a@ == counter_address(m));
        }
        if before.contains_key(a) {
            let m = choose|m: u64| m < grants.len() && a@ == counter_address(m);
            assert(m < grants.len() && a@ == counter_address(m));
        }
        if a == addr {
            assert(n < grants.len() && a@ == counter_address(n));
        }
    }
    assert forall|a: [u8; 32]| after.contains_key(a) implies after[a] == before.insert(
        addr,
        rights,
    )[a] by {
        let m = choose|m: u64| m < grants.len() && a@ == counter_address(m);
        lemma_counter_of_address(m);
        lemma_counter_of_address(n);
        if m == n {
            assert(a =~= addr);
        }
    }
    assert(after =~= before.insert(addr, rights));
}

impl MemoryHost {
    /// How many capabilities the host has made.
    pub closed spec fn issued_count(&self) -> nat {
        self.grants@.len()
    }

    /// A host with an empty store, running `code`, whose context holds no capability.
    pub fn new(code: Vec<u8>) -> (r: MemoryHost)
        ensures
            r.issued_count() == 0,
            r@ == (HostState {
                global: Map::empty(),
                local: Map::empty(),
                staged: None,
                granted: Map::empty(),
                code: code@,
            }),
    {
        let r = MemoryHost {
            global: ByteMap::new(),
            local: ByteMap::new(),
            staged: None,
            grants: Vec::new(),
            code,
        };
        assert(r@.granted =~= Map::<[u8; 32], AccessRights>::empty());
        r
    }

    /// The rights that the context holds for `addr`, if it holds any capability for it.
    fn granted(&self, addr: &[u8; 32]) -> (r: Option<AccessRights>)
        ensures
            match r {
                Some(rights) => self@.granted.contains_key(*addr) && self@.granted[*addr]
                    == rights,
                None => !self@.granted.contains_key(*addr),
            },
    {
        match address_counter(addr) {
            Some(n) => {
                proof {
                    lemma_grants_map(self.grants@, *addr, n);
                }
                if n < self.grants.len() as u64 {
                    Some(self.grants[n as usize])
                } else {
                    None
                }
            },
            None => None,
        }
    }

    /// Leaves the context with the rights of `uref` for its address and
    /// no more, as a host does that hands a capability on with fewer rights.
    /// Nothing happens unless the context holds `uref`: rights are never added.
    pub fn restrict(&mut self, uref: URef) -> (r: bool)
        ensures
            r == old(self)@.holds(uref),
            final(self).issued_count() == old(self).issued_count(),
            final(self)@ == if r {
                HostState {
                    granted: old(self)@.granted.insert(uref.addr, uref.access_rights),
                    ..old(self)@
                }
            } else {
                old(self)@
            },
    {
        match address_counter(&uref.addr) {
            Some(n) => {
                proof {
                    lemma_grants_map(self.grants@, uref.addr, n);
                }
                if n < self.grants.len() as u64 && self.grants[n as usize].contains(
                    uref.access_rights,
                ) {
                    proof {
                        lemma_grants_map_update(self.grants@, uref.addr, n, uref.access_rights);
                    }
                    self.grants[n as usize] = uref.access_rights;
                    true
                } else {
                    false
                }
            },
            None => false,
        }
    }

    /// Whether `key` lets the context do what `needed` names.
    fn key_permits(&self, key: &Key, needed: AccessRights) -> (r: bool)
        ensures
            r == self@.permits(key@, needed),
    {
        match key {
            Key::URef(uref) => match self.granted(&uref.addr) {
                Some(rights) => rights.contains(uref.access_rights) && uref.access_rights.contains(
                    needed,
                ),
                None => false,
            },
            _ => needed == AccessRights::Read,
        }
    }

    /// The slot that an encoded key gives access to for `needed`, if it gives any.
    fn locate(&self, key: &[u8], needed: AccessRights) -> (r: Option<Vec<u8>>)
        ensures
            match r {
                Some(slot) => self@.resolve(key@, needed) == Some(slot@),
                None => self@.resolve(key@, needed) is None,
            },
    {
        match deserialize::<Key>(key) {
            Ok(decoded) => {
                if self.key_permits(&decoded, needed) {
                    proof {
                        lemma_decoded_key_serializable(key@);
                    }
                    match decoded.normalize().to_bytes() {
                        Ok(slot) => Some(slot),
                        Err(_) => None,
                    }
                } else {
                    None
                }
            },
            Err(_) => None,
        }
    }

    /// Makes the next capability address, grants all rights for it, and
    /// seeds its slot with `value`.
    fn issue(&mut self, value: &[u8]) -> (addr: [u8; 32])
        requires
            old(self).grants@.len() < u64::MAX,
        ensures
            !old(self)@.granted.contains_key(addr),
            final(self)@ == old(self)@.issue(addr, value@),
            final(self).grants@.len() == old(self).grants@.len() + 1,
    {
        let addr = make_address(self.grants.len() as u64);
        let slot = capability_slot(addr);
        proof {
            lemma_grants_map_push(self.grants@, addr, AccessRights::ReadAddWrite);
        }
        self.global.insert(slot.as_slice(), value);
        self.staged = None;
        self.grants.push(AccessRights::ReadAddWrite);
        addr
    }

    /// The stored form of the running code with the encoded directory
    /// `named_keys`, if the host can publish the two.
    fn record(&self, named_keys: &[u8]) -> (r: Option<Vec<u8>>)
        ensures
            r is Some <==> self@.can_publish(named_keys@),
            r matches Some(record) ==> record@ == contract_record(self@.code, named_keys@),
    {
        if deserialize::<NamedKeys>(named_keys).is_err() {
            return None;
        }
        let mut record: Vec<u8> = Vec::new();
        record.push(CONTRACT_TAG);
        match bytes_to_bytes(self.code.as_slice()) {
            Ok(code) => {
                record.extend_from_slice(code.as_slice());
                record.extend_from_slice(named_keys);
                assert(record@ =~= contract_record(self@.code, named_keys@));
                Some(record)
            },
            Err(_) => None,
        }
    }
}

impl HostBoundary for MemoryHost {
    closed spec fn view(&self) -> HostState {
        HostState {
            global: self.global@,
            local: self.local@,
            staged: match self.staged {
                Some(value) => Some(value@),
                None => None,
            },
            granted: grants_map(self.grants@),
            code: self.code@,
        }
    }

    open spec fn inv(&self) -> bool {
        true
    }

    open spec fn can_issue(&self) -> bool {
        self.issued_count() < u64::MAX
    }

    open spec fn merge(prior: Seq<u8>, delta: Seq<u8>) -> Option<Seq<u8>> {
        sum_of(prior, delta)
    }

    open spec fn content_address(code: Seq<u8>, name: Seq<u8>, named_keys: Seq<u8>) -> [u8; 32] {
        addr_of(digest(code, name, named_keys))
    }

    fn stage_global(&mut self, key: &[u8]) -> (r: Result<usize, Abort>)
        ensures
            final(self).issued_count() == old(self).issued_count(),
    {
        match self.locate(key, AccessRights::Read) {
            Some(slot) => {
                let value = match self.global.get(slot.as_slice()) {
                    Some(value) => slice_to_vec(value.as_slice()),
                    None => Vec::new(),
                };
                let len = value.len();
                self.staged = Some(value);
                Ok(len)
            },
            None => {
                self.staged = None;
                Err(Abort)
            },
        }
    }

    fn stage_local(&mut self, key: &[u8]) -> (r: usize)
        ensures
            final(self).issued_count() == old(self).issued_count(),
    {
        let value = match self.local.get(key) {
            Some(value) => slice_to_vec(value.as_slice()),
            None => Vec::new(),
        };
        let len = value.len();
        self.staged = Some(value);
        len
    }

    fn materialize(&mut self, dest: &mut Vec<u8>)
        ensures
            final(self).issued_count() == old(self).issued_count(),
    {
        match &self.staged {
            Some(value) => {
                let mut i: usize = 0;
                while i < value.len()
                    invariant
                        i <= value@.len(),
                        dest@.len() == value@.len(),
                        forall|j: int| 0 <= j < i ==> dest@[j] == value@[j],
                    decreases value@.len() - i,
                {
                    dest[i] = value[i];
                    i += 1;
                }
                assert(dest@ =~= value@);
            },
            None => {},
        }
        self.staged = None;
    }

    fn write_global(&mut self, key: &[u8], value: &[u8]) -> (r: Result<(), Abort>)
        ensures
            final(self).issued_count() == old(self).issued_count(),
    {
        match self.locate(key, AccessRights::Write) {
            Some(slot) => {
                self.global.insert(slot.as_slice(), value);
                self.staged = None;
                Ok(())
            },
            None => {
                self.staged = None;
                Err(Abort)
            },
        }
    }

    fn write_local(&mut self, key: &[u8], value: &[u8])
        ensures
            final(self).issued_count() == old(self).issued_count(),
    {
        self.local.insert(key, value);
        self.staged = None;
    }

    fn add_global(&mut self, key: &[u8], delta: &[u8]) -> (r: Result<(), Abort>)
        ensures
            final(self).issued_count() == old(self).issued_count(),
    {
        self.staged = None;
        let slot = match self.locate(key, AccessRights::Add) {
            Some(slot) => slot,
            None => {
                return Err(Abort);
            },
        };
        let merged = match self.global.get(slot.as_slice()) {
            Some(prior) => if prior.len() == 0 {
                Some(slice_to_vec(delta))
            } else {
                merge_values(prior.as_slice(), delta)
            },
            None => Some(slice_to_vec(delta)),
        };
        match merged {
            Some(value) => {
                self.global.insert(slot.as_slice(), value.as_slice());
                Ok(())
            },
            None => Err(Abort),
        }
    }

    fn register_mutable(&mut self, name: &[u8], named_keys: &[u8]) -> (r: Result<[u8; 32], Abort>)
        ensures
            r is Ok ==> final(self).issued_count() == old(self).issued_count() + 1,
            r is Err ==> final(self).issued_count() == old(self).issued_count(),
    {
        self.staged = None;
        let record = match self.record(named_keys) {
            Some(record) => record,
            None => {
                return Err(Abort);
            },
        };
        if self.grants.len() as u64 == u64::MAX {
            return Err(Abort);
        }
        Ok(self.issue(record.as_slice()))
    }

    fn register_immutable(&mut self, name: &[u8], named_keys: &[u8]) -> (r: Result<
        [u8; 32],
        Abort,
    >)
        ensures
            final(self).issued_count() == old(self).issued_count(),
    {
        self.staged = None;
        let record = match self.record(named_keys) {
            Some(record) => record,
            None => {
                return Err(Abort);
            },
        };
        let addr = content_digest(self.code.as_slice(), name, named_keys);
        let slot = match Key::Hash(addr).to_bytes() {
            Ok(slot) => slot,
            Err(_) => {
                return Err(Abort);
            },
        };
        self.global.insert(slot.as_slice(), record.as_slice());
        Ok(addr)
    }

    fn mint_reference(&mut self, value: &[u8]) -> (r: Result<Vec<u8>, Abort>)
        ensures
            r is Ok ==> final(self).issued_count() == old(self).issued_count() + 1,
            r is Err ==> final(self).issued_count() == old(self).issued_count(),
    {
        if self.grants.len() as u64 == u64::MAX {
            self.staged = None;
            return Err(Abort);
        }
        let addr = self.issue(value);
        match Key::URef(URef::new(addr, AccessRights::ReadAddWrite)).to_bytes() {
            Ok(key) => {
                assert(key@ == encode_key(minted_key(addr)));
                Ok(key)
            },
            Err(_) => Err(Abort),
        }
    }
}

} // verus!
