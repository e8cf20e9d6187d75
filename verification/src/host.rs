//! The boundary to the host that owns the store.
//!
//! The accessors of this crate never touch storage themselves. They encode
//! their arguments and hand bytes to a `HostBoundary`, which decides whether
//! the operation is permitted and carries it out. This module states what a
//! host is: a mathematical model of its state, and for each call the exact
//! change to that state and the exact condition under which the host ends the
//! invocation instead.

use crate::bytesrepr::{encode_bytes, exactly, fits_u32};
use crate::key::{decode_key, encode_key, KeyView};
use crate::named_keys::decode_named_keys;
use crate::uref::{AccessRights, URef};
use crate::value::CONTRACT_TAG;
use vstd::prelude::*;

verus! {

/// The host ended the invocation. Nothing the invocation did is visible
/// afterwards, and the caller can only stop.
#[derive(Clone, Copy, Debug, PartialEq, Eq, Structural)]
pub struct Abort;

/// The state of a host, as far as this layer can observe it.
#[verifier::ext_equal]
pub struct HostState {
    /// The global partition: what each slot holds, by the encoding of its
    /// key without rights.
    pub global: Map<Seq<u8>, Seq<u8>>,
    /// The local partition of the running context: what each caller-chosen
    /// key holds.
    pub local: Map<Seq<u8>, Seq<u8>>,
    /// The value that the next `materialize` will copy out. It is there only
    /// between a staging call and the call that follows it.
    pub staged: Option<Seq<u8>>,
    /// The rights that the host has granted the running context for each
    /// address it knows a capability for. The context may present a
    /// capability for an address only with rights among these.
    pub granted: Map<[u8; 32], AccessRights>,
    /// The code that is running, which registration publishes.
    pub code: Seq<u8>,
}

/// The name of the slot behind a key: the encoding of the key without its rights,
/// so that all capabilities for one address name one slot.
pub open spec fn slot_of(key: KeyView) -> Seq<u8> {
    encode_key(key.normalize())
}

/// What a partition holds under `key`: nothing is the empty byte string.
pub open spec fn held(partition: Map<Seq<u8>, Seq<u8>>, key: Seq<u8>) -> Seq<u8> {
    if partition.contains_key(key) {
        partition[key]
    } else {
        Seq::<u8>::empty()
    }
}

/// The stored form of a contract record with the given code, whose directory
/// is already encoded.
pub open spec fn contract_record(code: Seq<u8>, named_keys: Seq<u8>) -> Seq<u8> {
    seq![CONTRACT_TAG] + encode_bytes(code) + named_keys
}

impl HostState {
    /// Whether the running context holds `uref`: the host has granted it, for
    /// this address, every right that `uref` carries. A capability that the
    /// context does not hold is forged.
    pub open spec fn holds(self, uref: URef) -> bool {
        self.granted.contains_key(uref.addr) && self.granted[uref.addr].spec_contains(
            uref.access_rights,
        )
    }

    /// Whether a key lets the running context do what `needed` names. A
    /// capability must be held and must itself carry the right: what the
    /// context could have presented instead does not count. Any other key
    /// carries no rights: it can be read and nothing else.
    pub open spec fn permits(self, key: KeyView, needed: AccessRights) -> bool {
        match key {
            KeyView::URef(uref) => self.holds(uref) && uref.access_rights.spec_contains(needed),
            _ => needed == AccessRights::Read,
        }
    }

    /// The slot that an encoded key gives access to for `needed`, if it gives
    /// any: the bytes must be exactly one key, and the key must permit it.
    pub open spec fn resolve(self, key: Seq<u8>, needed: AccessRights) -> Option<Seq<u8>> {
        match exactly(decode_key(key)) {
            Ok(key) => if self.permits(key, needed) {
                Some(slot_of(key))
            } else {
                None
            },
            Err(_) => None,
        }
    }

    /// The state with nothing staged: what any call but a staging call leaves behind.
    pub open spec fn unstaged(self) -> HostState {
        HostState { staged: None, ..self }
    }

    /// The state in which `value` waits for `materialize`.
    pub open spec fn stage(self, value: Seq<u8>) -> HostState {
        HostState { staged: Some(value), ..self }
    }

    /// The state after `slot` of the global partition was given `value`.
    pub open spec fn put_global(self, slot: Seq<u8>, value: Seq<u8>) -> HostState {
        HostState { global: self.global.insert(slot, value), staged: None, ..self }
    }

    /// The state after `key` of the local partition was given `value`.
    pub open spec fn put_local(self, key: Seq<u8>, value: Seq<u8>) -> HostState {
        HostState { local: self.local.insert(key, value), staged: None, ..self }
    }

    /// The state after staging what the global partition holds for an encoded
    /// key, or nothing where the host ends the invocation.
    pub open spec fn stage_global(self, key: Seq<u8>) -> Option<HostState> {
        match self.resolve(key, AccessRights::Read) {
            Some(slot) => Some(self.stage(held(self.global, slot))),
            None => None,
        }
    }

    /// The state after staging what the local partition holds for `key`.
    pub open spec fn stage_local(self, key: Seq<u8>) -> HostState {
        self.stage(held(self.local, key))
    }

    /// The state after overwriting the slot of an encoded key, or nothing
    /// where the host ends the invocation.
    pub open spec fn write_global(self, key: Seq<u8>, value: Seq<u8>) -> Option<HostState> {
        match self.resolve(key, AccessRights::Write) {
            Some(slot) => Some(self.put_global(slot, value)),
            None => None,
        }
    }

    /// The state after merging `delta` into `slot`, where `merged` is the merge of
    /// what the slot holds with `delta`, or nothing where there is no such merge
    /// and the host ends the invocation. A slot that holds nothing takes `delta`
    /// as it is.
    pub open spec fn merge_into(self, slot: Seq<u8>, delta: Seq<u8>, merged: Option<Seq<u8>>) -> Option<
        HostState,
    > {
        if held(self.global, slot).len() == 0 {
            Some(self.put_global(slot, delta))
        } else if merged is Some {
            Some(self.put_global(slot, merged->0))
        } else {
            None
        }
    }

    /// Whether the host can publish the running code with an encoded directory:
    /// the directory must decode and the code must have an encoding.
    pub open spec fn can_publish(self, named_keys: Seq<u8>) -> bool {
        exactly(decode_named_keys(named_keys)) is Ok && fits_u32(self.code.len())
    }

    /// The state after publishing the running code at the immutable address `addr`.
    pub open spec fn publish_at_hash(self, addr: [u8; 32], named_keys: Seq<u8>) -> HostState {
        self.put_global(slot_of(KeyView::Hash(addr)), contract_record(self.code, named_keys))
    }

    /// The state after the host made a capability for `addr`, granted the
    /// context all rights for it, and seeded its slot with `value`.
    pub open spec fn issue(self, addr: [u8; 32], value: Seq<u8>) -> HostState {
        HostState {
            global: self.global.insert(slot_of(minted_key(addr)), value),
            granted: self.granted.insert(addr, AccessRights::ReadAddWrite),
            staged: None,
            ..self
        }
    }
}

/// The full-rights capability for `addr`, as the host hands it out.
pub open spec fn minted_key(addr: [u8; 32]) -> KeyView {
    KeyView::URef(URef { addr, access_rights: AccessRights::ReadAddWrite })
}

/// A host.
///
/// Every call either returns, having changed the state exactly as stated, or
/// ends the invocation, which shows here as `Abort`. Staging and `materialize`
/// form one handshake: `materialize` may only follow a staging call directly,
/// which its precondition enforces, since every other call leaves nothing staged.
///
/// The specification functions have defaults so that a host outside the reach
/// of the verifier, such as the binding to a real one, can implement the calls
/// alone. Of such a host nothing is proved: that it keeps this contract, for
/// some model, is what its user relies on.
pub trait HostBoundary {
    /// The state of the host, as far as this layer can observe it.
    open spec fn view(&self) -> HostState {
        arbitrary()
    }

    /// What the host keeps true of itself between calls.
    open spec fn inv(&self) -> bool {
        true
    }

    /// Whether the host still has an address to give to a new capability.
    open spec fn can_issue(&self) -> bool {
        arbitrary()
    }

    /// How this host merges `delta` into a slot that holds `prior`: the merged
    /// value, or nothing where the two cannot be merged.
    open spec fn merge(prior: Seq<u8>, delta: Seq<u8>) -> Option<Seq<u8>> {
        arbitrary()
    }

    /// The address this host derives from published content.
    open spec fn content_address(code: Seq<u8>, name: Seq<u8>, named_keys: Seq<u8>) -> [u8; 32] {
        arbitrary()
    }

    /// Stages the value of the global slot behind the encoded key `key` and
    /// returns its length, `0` where the slot holds nothing.
    fn stage_global(&mut self, key: &[u8]) -> (r: Result<usize, Abort>)
        requires
            old(self).inv(),
        ensures
            final(self).inv(),
            match old(self)@.stage_global(key@) {
                Some(after) => final(self)@ == after && r == Ok::<usize, Abort>(
                    after.staged->0.len() as usize,
                ) && after.staged->0.len() <= usize::MAX,
                None => final(self)@ == old(self)@.unstaged() && r is Err,
            },
    ;

    /// Stages the value that the local partition holds for `key` and returns
    /// its length, `0` where it holds nothing.
    fn stage_local(&mut self, key: &[u8]) -> (r: usize)
        requires
            old(self).inv(),
        ensures
            final(self).inv(),
            final(self)@ == old(self)@.stage_local(key@),
            r == held(old(self)@.local, key@).len(),
    ;

    /// Copies the staged value into `dest`, which must have its length.
    fn materialize(&mut self, dest: &mut Vec<u8>)
        requires
            old(self).inv(),
            old(self)@.staged is Some,
            old(dest)@.len() == old(self)@.staged->0.len(),
        ensures
            final(self).inv(),
            final(self)@ == old(self)@.unstaged(),
            final(dest)@ == old(self)@.staged->0,
    ;

    /// Overwrites the global slot behind the encoded key `key` with `value`.
    fn write_global(&mut self, key: &[u8], value: &[u8]) -> (r: Result<(), Abort>)
        requires
            old(self).inv(),
        ensures
            final(self).inv(),
            match old(self)@.write_global(key@, value@) {
                Some(after) => final(self)@ == after && r is Ok,
                None => final(self)@ == old(self)@.unstaged() && r is Err,
            },
    ;

    /// Gives `key` of the local partition the value `value`.
    fn write_local(&mut self, key: &[u8], value: &[u8])
        requires
            old(self).inv(),
        ensures
            final(self).inv(),
            final(self)@ == old(self)@.put_local(key@, value@),
    ;

    /// Merges `delta` into the global slot behind the encoded key `key`.
    fn add_global(&mut self, key: &[u8], delta: &[u8]) -> (r: Result<(), Abort>)
        requires
            old(self).inv(),
        ensures
            final(self).inv(),
            match old(self)@.resolve(key@, AccessRights::Add) {
                Some(slot) => match old(self)@.merge_into(
                    slot,
                    delta@,
                    Self::merge(held(old(self)@.global, slot), delta@),
                ) {
                    Some(after) => final(self)@ == after && r is Ok,
                    None => final(self)@ == old(self)@.unstaged() && r is Err,
                },
                None => final(self)@ == old(self)@.unstaged() && r is Err,
            },
    ;

    /// Publishes the running code with the encoded directory `named_keys`
    /// behind a new capability, for which the context is granted all rights,
    /// and returns its address.
    fn register_mutable(&mut self, name: &[u8], named_keys: &[u8]) -> (r: Result<[u8; 32], Abort>)
        requires
            old(self).inv(),
        ensures
            final(self).inv(),
            r is Ok <==> old(self)@.can_publish(named_keys@) && old(self).can_issue(),
            match r {
                Ok(addr) => !old(self)@.granted.contains_key(addr) && final(self)@ == old(self)@.issue(
                    addr,
                    contract_record(old(self)@.code, named_keys@),
                ),
                Err(_) => final(self)@ == old(self)@.unstaged(),
            },
    ;

    /// Publishes the running code with the encoded directory `named_keys` at
    /// the address derived from the code, `name` and the directory, and returns it.
    fn register_immutable(&mut self, name: &[u8], named_keys: &[u8]) -> (r: Result<
        [u8; 32],
        Abort,
    >)
        requires
            old(self).inv(),
        ensures
            final(self).inv(),
            r is Ok <==> old(self)@.can_publish(named_keys@),
            match r {
                Ok(addr) => addr == Self::content_address(old(self)@.code, name@, named_keys@)
                    && final(self)@ == old(self)@.publish_at_hash(addr, named_keys@),
                Err(_) => final(self)@ == old(self)@.unstaged(),
            },
    ;

    /// Makes a capability for an address that the context knew no capability
    /// for, grants the context all rights for it, seeds its slot with `value`,
    /// and returns the encoding of its key with full rights.
    fn mint_reference(&mut self, value: &[u8]) -> (r: Result<Vec<u8>, Abort>)
        requires
            old(self).inv(),
        ensures
            final(self).inv(),
            r is Ok <==> old(self).can_issue(),
            match r {
                Ok(key) => exists|addr: [u8; 32]|
                    {
                        &&& key@ == encode_key(#[trigger] minted_key(addr))
                        &&& !old(self)@.granted.contains_key(addr)
                        &&& final(self)@ == old(self)@.issue(addr, value@)
                    },
                Err(_) => final(self)@ == old(self)@.unstaged(),
            },
    ;
}

} // verus!
