//! Capabilities: an address together with the rights its holder may exercise.

use crate::bytesrepr::{decode_addr, lemma_decode_addr, Error, FromBytes, Parsed, ToBytes};
use vstd::prelude::*;
use vstd::slice::*;

verus! {

/// The bit that stands for the right to read.
pub const READ_BIT: u8 = 1;

/// The bit that stands for the right to overwrite.
pub const WRITE_BIT: u8 = 2;

/// The bit that stands for the right to merge.
pub const ADD_BIT: u8 = 4;

/// The operations a capability permits: any subset of read, write and add.
#[derive(Clone, Copy, Debug, PartialEq, Eq, Structural)]
pub enum AccessRights {
    NoAccess,
    Read,
    Write,
    ReadWrite,
    Add,
    ReadAdd,
    AddWrite,
    ReadAddWrite,
}

impl AccessRights {
    /// Whether the right to read is among these.
    pub open spec fn spec_is_readable(self) -> bool {
        self is Read || self is ReadWrite || self is ReadAdd || self is ReadAddWrite
    }

    /// Whether the right to overwrite is among these.
    pub open spec fn spec_is_writeable(self) -> bool {
        self is Write || self is ReadWrite || self is AddWrite || self is ReadAddWrite
    }

    /// Whether the right to merge is among these.
    pub open spec fn spec_is_addable(self) -> bool {
        self is Add || self is ReadAdd || self is AddWrite || self is ReadAddWrite
    }

    /// The rights as a mask: `READ_BIT`, `WRITE_BIT` and `ADD_BIT`, each set
    /// exactly when the right is held.
    pub open spec fn spec_bits(self) -> u8 {
        match self {
            AccessRights::NoAccess => 0,
            AccessRights::Read => 1,
            AccessRights::Write => 2,
            AccessRights::ReadWrite => 3,
            AccessRights::Add => 4,
            AccessRights::ReadAdd => 5,
            AccessRights::AddWrite => 6,
            AccessRights::ReadAddWrite => 7,
        }
    }

    /// The rights that hold exactly the given three.
    pub open spec fn of(read: bool, write: bool, add: bool) -> AccessRights {
        if add {
            if write {
                if read {
                    AccessRights::ReadAddWrite
                } else {
                    AccessRights::AddWrite
                }
            } else {
                if read {
                    AccessRights::ReadAdd
                } else {
                    AccessRights::Add
                }
            }
        } else {
            if write {
                if read {
                    AccessRights::ReadWrite
                } else {
                    AccessRights::Write
                }
            } else {
                if read {
                    AccessRights::Read
                } else {
                    AccessRights::NoAccess
                }
            }
        }
    }

    /// Whether every right in `other` is also in `self`.
    pub open spec fn spec_contains(self, other: AccessRights) -> bool {
        &&& other.spec_is_readable() ==> self.spec_is_readable()
        &&& other.spec_is_writeable() ==> self.spec_is_writeable()
        &&& other.spec_is_addable() ==> self.spec_is_addable()
    }

    /// Whether the right to read is among these.
    #[verifier::when_used_as_spec(spec_is_readable)]
    pub fn is_readable(self) -> (r: bool)
        ensures
            r == self.spec_is_readable(),
    {
        match self {
            AccessRights::Read
            | AccessRights::ReadWrite
            | AccessRights::ReadAdd
            | AccessRights::ReadAddWrite => true,
            _ => false,
        }
    }

    /// Whether the right to overwrite is among these.
    #[verifier::when_used_as_spec(spec_is_writeable)]
    pub fn is_writeable(self) -> (r: bool)
        ensures
            r == self.spec_is_writeable(),
    {
        match self {
            AccessRights::Write
            | AccessRights::ReadWrite
            | AccessRights::AddWrite
            | AccessRights::ReadAddWrite => true,
            _ => false,
        }
    }

    /// Whether the right to merge is among these.
    #[verifier::when_used_as_spec(spec_is_addable)]
    pub fn is_addable(self) -> (r: bool)
        ensures
            r == self.spec_is_addable(),
    {
        match self {
            AccessRights::Add
            | AccessRights::ReadAdd
            | AccessRights::AddWrite
            | AccessRights::ReadAddWrite => true,
            _ => false,
        }
    }

    /// Whether every right in `other` is also in `self`.
    #[verifier::when_used_as_spec(spec_contains)]
    pub fn contains(self, other: AccessRights) -> (r: bool)
        ensures
            r == self.spec_contains(other),
    {
        (!other.is_readable() || self.is_readable()) && (!other.is_writeable()
            || self.is_writeable()) && (!other.is_addable() || self.is_addable())
    }

    /// The rights as a mask.
    #[verifier::when_used_as_spec(spec_bits)]
    pub fn bits(self) -> (r: u8)
        ensures
            r == self.spec_bits(),
            r <= 7,
    {
        match self {
            AccessRights::NoAccess => 0,
            AccessRights::Read => 1,
            AccessRights::Write => 2,
            AccessRights::ReadWrite => 3,
            AccessRights::Add => 4,
            AccessRights::ReadAdd => 5,
            AccessRights::AddWrite => 6,
            AccessRights::ReadAddWrite => 7,
        }
    }

    /// The rights that a mask stands for; a mask with any other bit set stands for none.
    pub fn from_bits(bits: u8) -> (r: Option<AccessRights>)
        ensures
            r is Some <==> bits <= 7,
            r matches Some(rights) ==> rights.spec_bits() == bits,
    {
        if bits == 0 {
            Some(AccessRights::NoAccess)
        } else if bits == 1 {
            Some(AccessRights::Read)
        } else if bits == 2 {
            Some(AccessRights::Write)
        } else if bits == 3 {
            Some(AccessRights::ReadWrite)
        } else if bits == 4 {
            Some(AccessRights::Add)
        } else if bits == 5 {
            Some(AccessRights::ReadAdd)
        } else if bits == 6 {
            Some(AccessRights::AddWrite)
        } else if bits == 7 {
            Some(AccessRights::ReadAddWrite)
        } else {
            None
        }
    }

    /// The mask of `self` has a bit set exactly when `self` holds its right.
    pub proof fn lemma_bits(self)
        ensures
            self.spec_bits() <= 7,
            (self.spec_bits() & READ_BIT != 0) == self.spec_is_readable(),
            (self.spec_bits() & WRITE_BIT != 0) == self.spec_is_writeable(),
            (self.spec_bits() & ADD_BIT != 0) == self.spec_is_addable(),
            self == AccessRights::of(
                self.spec_is_readable(),
                self.spec_is_writeable(),
                self.spec_is_addable(),
            ),
    {
        assert(0u8 & 1 == 0 && 0u8 & 2 == 0 && 0u8 & 4 == 0) by (bit_vector);
        assert(1u8 & 1 != 0 && 1u8 & 2 == 0 && 1u8 & 4 == 0) by (bit_vector);
        assert(2u8 & 1 == 0 && 2u8 & 2 != 0 && 2u8 & 4 == 0) by (bit_vector);
        assert(3u8 & 1 != 0 && 3u8 & 2 != 0 && 3u8 & 4 == 0) by (bit_vector);
        assert(4u8 & 1 == 0 && 4u8 & 2 == 0 && 4u8 & 4 != 0) by (bit_vector);
        assert(5u8 & 1 != 0 && 5u8 & 2 == 0 && 5u8 & 4 != 0) by (bit_vector);
        assert(6u8 & 1 == 0 && 6u8 & 2 != 0 && 6u8 & 4 != 0) by (bit_vector);
        assert(7u8 & 1 != 0 && 7u8 & 2 != 0 && 7u8 & 4 != 0) by (bit_vector);
    }

    /// Containment is the subset order on masks.
    pub proof fn lemma_contains_is_mask_subset(self, other: AccessRights)
        ensures
            self.spec_contains(other) <==> (self.spec_bits() & other.spec_bits())
                == other.spec_bits(),
    {
        let a = self.spec_bits();
        let b = other.spec_bits();
        self.lemma_bits();
        other.lemma_bits();
        assert(a <= 7 && b <= 7 ==> (((a & b) == b) <==> ((b & 1 != 0 ==> a & 1 != 0) && (b & 2
            != 0 ==> a & 2 != 0) && (b & 4 != 0 ==> a & 4 != 0)))) by (bit_vector);
    }
}

impl View for AccessRights {
    type V = AccessRights;

    open spec fn view(&self) -> AccessRights {
        *self
    }
}

/// Rights are one byte: their mask.
pub open spec fn encode_rights(rights: AccessRights) -> Seq<u8> {
    seq![rights.spec_bits()]
}

/// The rights with the mask `bits`, for a mask that names rights.
pub open spec fn rights_of_bits(bits: u8) -> AccessRights {
    AccessRights::of(bits & READ_BIT != 0, bits & WRITE_BIT != 0, bits & ADD_BIT != 0)
}

/// The rights that the first byte of `bytes` is the mask of. A byte with a
/// bit set beyond the three is ill-formed.
pub open spec fn decode_rights(bytes: Seq<u8>) -> Parsed<AccessRights> {
    if bytes.len() < 1 {
        Err(Error::EarlyEndOfStream)
    } else if bytes[0] > 7 {
        Err(Error::Formatting)
    } else {
        Ok((rights_of_bits(bytes[0]), bytes.skip(1)))
    }
}

/// Decoding encoded rights gives them back and leaves the rest of the input.
pub proof fn lemma_decode_encode_rights(rights: AccessRights, rest: Seq<u8>)
    ensures
        decode_rights(encode_rights(rights) + rest) == Ok::<_, Error>((rights, rest)),
{
    rights.lemma_bits();
    assert((encode_rights(rights) + rest).skip(1) =~= rest);
}

impl ToBytes for AccessRights {
    open spec fn encoding(&self) -> Result<Seq<u8>, Error> {
        Ok(encode_rights(*self))
    }

    fn to_bytes(&self) -> (r: Result<Vec<u8>, Error>) {
        let mut out: Vec<u8> = Vec::new();
        out.push(self.bits());
        assert(out@ =~= encode_rights(*self));
        Ok(out)
    }
}

impl FromBytes for AccessRights {
    open spec fn parse(bytes: Seq<u8>) -> Parsed<AccessRights> {
        decode_rights(bytes)
    }

    fn from_bytes<'a>(bytes: &'a [u8]) -> (r: Result<(Self, &'a [u8]), Error>) {
        if bytes.len() < 1 {
            return Err(Error::EarlyEndOfStream);
        }
        match AccessRights::from_bits(bytes[0]) {
            Some(rights) => {
                proof {
                    rights.lemma_bits();
                }
                Ok((rights, slice_subrange(bytes, 1, bytes.len())))
            },
            None => Err(Error::Formatting),
        }
    }
}

/// A capability: the address of a slot and the rights that this instance
/// of the capability carries.
#[derive(Clone, Copy, Debug, PartialEq, Eq)]
pub struct URef {
    pub addr: [u8; 32],
    pub access_rights: AccessRights,
}

impl View for URef {
    type V = URef;

    open spec fn view(&self) -> URef {
        *self
    }
}

impl URef {
    /// The capability for `addr` that carries `access_rights`.
    pub fn new(addr: [u8; 32], access_rights: AccessRights) -> (r: URef)
        ensures
            r.addr == addr,
            r.access_rights == access_rights,
    {
        URef { addr, access_rights }
    }

    /// The address of the slot.
    pub fn addr(&self) -> (r: [u8; 32])
        ensures
            r == self.addr,
    {
        self.addr
    }

    /// The rights that this capability carries.
    pub fn access_rights(&self) -> (r: AccessRights)
        ensures
            r == self.access_rights,
    {
        self.access_rights
    }

    /// The same address with no rights at all: what names the slot.
    pub open spec fn spec_remove_access_rights(self) -> URef {
        URef { addr: self.addr, access_rights: AccessRights::NoAccess }
    }

    /// The same address with no rights at all.
    #[verifier::when_used_as_spec(spec_remove_access_rights)]
    pub fn remove_access_rights(self) -> (r: URef)
        ensures
            r == self.spec_remove_access_rights(),
    {
        URef { addr: self.addr, access_rights: AccessRights::NoAccess }
    }

    /// Whether this capability carries the right to read.
    pub fn is_readable(&self) -> (r: bool)
        ensures
            r == self.access_rights.spec_is_readable(),
    {
        self.access_rights.is_readable()
    }

    /// Whether this capability carries the right to overwrite.
    pub fn is_writeable(&self) -> (r: bool)
        ensures
            r == self.access_rights.spec_is_writeable(),
    {
        self.access_rights.is_writeable()
    }

    /// Whether this capability carries the right to merge.
    pub fn is_addable(&self) -> (r: bool)
        ensures
            r == self.access_rights.spec_is_addable(),
    {
        self.access_rights.is_addable()
    }
}

/// A capability is its address followed by its rights.
pub open spec fn encode_uref(uref: URef) -> Seq<u8> {
    uref.addr@ + encode_rights(uref.access_rights)
}

/// The address that the 32 bytes `s` spell.
pub open spec fn addr_of(s: Seq<u8>) -> [u8; 32] {
    choose|a: [u8; 32]| a@ == s
}

/// The capability at the front of `bytes`: an address, then rights.
pub open spec fn decode_uref(bytes: Seq<u8>) -> Parsed<URef> {
    match decode_addr(bytes) {
        Ok((addr, rest)) => match decode_rights(rest) {
            Ok((access_rights, left)) => Ok((URef { addr: addr_of(addr), access_rights }, left)),
            Err(e) => Err(e),
        },
        Err(e) => Err(e),
    }
}

/// An address is determined by its bytes.
pub proof fn lemma_addr_of(a: [u8; 32])
    ensures
        addr_of(a@) == a,
{
    let b = addr_of(a@);
    assert(b@ == a@);
    assert(b =~= a);
}

/// Decoding an encoded capability gives it back and leaves the rest of the input.
pub proof fn lemma_decode_encode_uref(uref: URef, rest: Seq<u8>)
    ensures
        decode_uref(encode_uref(uref) + rest) == Ok::<_, Error>((uref, rest)),
{
    let after = encode_rights(uref.access_rights) + rest;
    assert(encode_uref(uref) + rest =~= uref.addr@ + after);
    lemma_decode_addr(uref.addr@, after);
    lemma_decode_encode_rights(uref.access_rights, rest);
    lemma_addr_of(uref.addr);
}

impl ToBytes for URef {
    open spec fn encoding(&self) -> Result<Seq<u8>, Error> {
        Ok(encode_uref(*self))
    }

    fn to_bytes(&self) -> (r: Result<Vec<u8>, Error>) {
        let mut out = slice_to_vec(self.addr.as_slice());
        out.push(self.access_rights.bits());
        assert(out@ =~= encode_uref(*self));
        Ok(out)
    }
}

impl FromBytes for URef {
    open spec fn parse(bytes: Seq<u8>) -> Parsed<URef> {
        decode_uref(bytes)
    }

    fn from_bytes<'a>(bytes: &'a [u8]) -> (r: Result<(Self, &'a [u8]), Error>) {
        let (addr, rest) = match <[u8; 32]>::from_bytes(bytes) {
            Ok(pair) => pair,
            Err(e) => {
                return Err(e);
            },
        };
        match AccessRights::from_bytes(rest) {
            Ok((access_rights, left)) => {
                proof {
                    lemma_addr_of(addr);
                }
                Ok((URef { addr, access_rights }, left))
            },
            Err(e) => Err(e),
        }
    }
}

} // verus!
