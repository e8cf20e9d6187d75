//! Typed capabilities: a capability that remembers, for the compiler only,
//! which kind of value its slot is meant to hold.

use crate::key::{Key, KeyView};
use crate::uref::{AccessRights, URef};
use crate::value::Contract;
use core::marker::PhantomData;
use vstd::prelude::*;

verus! {

/// A capability for a slot that is meant to hold a `T`. The kind is not part
/// of the capability: turning it into a key forgets it.
#[derive(Debug, PartialEq, Eq)]
pub struct TURef<T> {
    uref: URef,
    marker: PhantomData<T>,
}

impl<T> View for TURef<T> {
    type V = URef;

    closed spec fn view(&self) -> URef {
        self.uref
    }
}

impl<T> Clone for TURef<T> {
    fn clone(&self) -> (r: Self)
        ensures
            r == *self,
    {
        TURef { uref: self.uref, marker: PhantomData }
    }
}

impl<T> Copy for TURef<T> {

}

impl<T> TURef<T> {
    /// The capability for `addr` that carries `access_rights`.
    pub fn new(addr: [u8; 32], access_rights: AccessRights) -> (r: TURef<T>)
        ensures
            r@ == (URef { addr, access_rights }),
    {
        TURef { uref: URef { addr, access_rights }, marker: PhantomData }
    }

    /// The untyped capability, read as one for a `T`.
    pub fn from_uref(uref: URef) -> (r: TURef<T>)
        ensures
            r@ == uref,
    {
        TURef { uref, marker: PhantomData }
    }

    /// The capability without its kind.
    pub fn uref(&self) -> (r: URef)
        ensures
            r == self@,
    {
        self.uref
    }

    /// The address of the slot.
    pub fn addr(&self) -> (r: [u8; 32])
        ensures
            r == self@.addr,
    {
        self.uref.addr
    }

    /// The rights that this capability carries.
    pub fn access_rights(&self) -> (r: AccessRights)
        ensures
            r == self@.access_rights,
    {
        self.uref.access_rights
    }

    /// The key of the slot, carrying the rights of this capability.
    pub open spec fn key_view(&self) -> KeyView {
        KeyView::URef(self@)
    }

    /// The key of the slot, carrying the rights of this capability.
    pub fn key(&self) -> (r: Key)
        ensures
            r@ == self.key_view(),
    {
        Key::URef(self.uref)
    }
}

impl<T> From<TURef<T>> for Key {
    /// Forgets the kind: the key of the slot, carrying the rights of the capability.
    fn from(turef: TURef<T>) -> (r: Key) {
        Key::URef(turef.uref)
    }
}

impl<T> vstd::std_specs::convert::FromSpecImpl<TURef<T>> for Key {
    open spec fn obeys_from_spec() -> bool {
        true
    }

    open spec fn from_spec(turef: TURef<T>) -> Key {
        Key::URef(turef@)
    }
}

/// Where published code can be found.
#[derive(Debug, PartialEq, Eq)]
pub enum ContractRef {
    /// At an address derived from the code itself: it can be read and never changed.
    Hash([u8; 32]),
    /// Behind a capability that the host made for it.
    URef(TURef<Contract>),
}

impl Clone for ContractRef {
    fn clone(&self) -> (r: Self)
        ensures
            r == *self,
    {
        match self {
            ContractRef::Hash(addr) => ContractRef::Hash(*addr),
            ContractRef::URef(turef) => ContractRef::URef(*turef),
        }
    }
}

impl Copy for ContractRef {

}

impl ContractRef {
    /// The key under which the code is stored.
    pub open spec fn key_view(&self) -> KeyView {
        match self {
            ContractRef::Hash(addr) => KeyView::Hash(*addr),
            ContractRef::URef(turef) => KeyView::URef(turef@),
        }
    }

    /// The key under which the code is stored.
    pub fn key(&self) -> (r: Key)
        ensures
            r@ == self.key_view(),
    {
        match self {
            ContractRef::Hash(addr) => Key::Hash(*addr),
            ContractRef::URef(turef) => turef.key(),
        }
    }
}

} // verus!
