//! Keys: the names of the slots of the global partition.

use crate::bytesrepr::{
    bytes_from_bytes, bytes_to_bytes, decode_addr, decode_bytes, encode_bytes, fits_u32,
    lemma_decode_addr, lemma_decode_encode_bytes, Error, FromBytes, Parsed, ToBytes,
};
use crate::uref::{addr_of, decode_uref, encode_uref, lemma_addr_of, lemma_decode_encode_uref, URef};
use vstd::prelude::*;
use vstd::slice::*;

verus! {

/// The first byte of an encoded account key.
pub const ACCOUNT_TAG: u8 = 0;

/// The first byte of an encoded hash key.
pub const HASH_TAG: u8 = 1;

/// The first byte of an encoded capability key.
pub const UREF_TAG: u8 = 2;

/// The first byte of an encoded local key.
pub const LOCAL_TAG: u8 = 3;

/// The number of bytes in an encoded capability key: the tag and the capability.
pub const UREF_SIZE: usize = 34;

/// The name of a slot.
#[derive(Debug, PartialEq, Eq)]
pub enum Key {
    /// The record of the account with this address.
    Account([u8; 32]),
    /// Immutable content, found by the address derived from it.
    Hash([u8; 32]),
    /// The slot behind a capability.
    URef(URef),
    /// A name in the local partition, as it appears inside stored values.
    Local(Vec<u8>),
}

/// A key as a mathematical value.
pub enum KeyView {
    Account([u8; 32]),
    Hash([u8; 32]),
    URef(URef),
    Local(Seq<u8>),
}

impl View for Key {
    type V = KeyView;

    open spec fn view(&self) -> KeyView {
        match self {
            Key::Account(addr) => KeyView::Account(*addr),
            Key::Hash(addr) => KeyView::Hash(*addr),
            Key::URef(uref) => KeyView::URef(*uref),
            Key::Local(name) => KeyView::Local(name@),
        }
    }
}

impl Clone for Key {
    fn clone(&self) -> (r: Key)
        ensures
            r@ == self@,
    {
        match self {
            Key::Account(addr) => Key::Account(*addr),
            Key::Hash(addr) => Key::Hash(*addr),
            Key::URef(uref) => Key::URef(*uref),
            Key::Local(name) => Key::Local(slice_to_vec(name.as_slice())),
        }
    }
}

impl KeyView {
    /// Whether the key has an encoding: a local name must be short enough to be counted.
    pub open spec fn serializable(self) -> bool {
        self matches KeyView::Local(name) ==> fits_u32(name.len())
    }

    /// The key without the rights that a capability carries. Two keys name
    /// the same slot exactly when they agree after this.
    pub open spec fn normalize(self) -> KeyView {
        match self {
            KeyView::URef(uref) => KeyView::URef(uref.spec_remove_access_rights()),
            other => other,
        }
    }
}

/// A key is a tag that tells its kind, followed by its address, its capability or its name.
pub open spec fn encode_key(key: KeyView) -> Seq<u8> {
    match key {
        KeyView::Account(addr) => seq![ACCOUNT_TAG] + addr@,
        KeyView::Hash(addr) => seq![HASH_TAG] + addr@,
        KeyView::URef(uref) => seq![UREF_TAG] + encode_uref(uref),
        KeyView::Local(name) => seq![LOCAL_TAG] + encode_bytes(name),
    }
}

/// The key at the front of `bytes`: its tag decides how the rest is read, and
/// a tag that names no kind of key is ill-formed.
pub open spec fn decode_key(bytes: Seq<u8>) -> Parsed<KeyView> {
    if bytes.len() < 1 {
        Err(Error::EarlyEndOfStream)
    } else {
        let body = bytes.skip(1);
        if bytes[0] == ACCOUNT_TAG {
            match decode_addr(body) {
                Ok((addr, rest)) => Ok((KeyView::Account(addr_of(addr)), rest)),
                Err(e) => Err(e),
            }
        } else if bytes[0] == HASH_TAG {
            match decode_addr(body) {
                Ok((addr, rest)) => Ok((KeyView::Hash(addr_of(addr)), rest)),
                Err(e) => Err(e),
            }
        } else if bytes[0] == UREF_TAG {
            match decode_uref(body) {
                Ok((uref, rest)) => Ok((KeyView::URef(uref), rest)),
                Err(e) => Err(e),
            }
        } else if bytes[0] == LOCAL_TAG {
            match decode_bytes(body) {
                Ok((name, rest)) => Ok((KeyView::Local(name), rest)),
                Err(e) => Err(e),
            }
        } else {
            Err(Error::Formatting)
        }
    }
}

/// Decoding an encoded key gives the key back and leaves the rest of the input.
pub proof fn lemma_decode_encode_key(key: KeyView, rest: Seq<u8>)
    requires
        key.serializable(),
    ensures
        decode_key(encode_key(key) + rest) == Ok::<_, Error>((key, rest)),
{
    let all = encode_key(key) + rest;
    match key {
        KeyView::Account(addr) => {
            assert(all.skip(1) =~= addr@ + rest);
            lemma_decode_addr(addr@, rest);
            lemma_addr_of(addr);
        },
        KeyView::Hash(addr) => {
            assert(all.skip(1) =~= addr@ + rest);
            lemma_decode_addr(addr@, rest);
            lemma_addr_of(addr);
        },
        KeyView::URef(uref) => {
            assert(all.skip(1) =~= encode_uref(uref) + rest);
            lemma_decode_encode_uref(uref, rest);
        },
        KeyView::Local(name) => {
            assert(all.skip(1) =~= encode_bytes(name) + rest);
            lemma_decode_encode_bytes(name, rest);
        },
    }
}

/// The encoding of a capability key has a fixed length.
pub proof fn lemma_encode_uref_key_len(uref: URef)
    ensures
        encode_key(KeyView::URef(uref)).len() == UREF_SIZE,
{
}

/// Keys with the same encoding are the same key.
pub proof fn lemma_encode_key_injective(a: KeyView, b: KeyView)
    requires
        a.serializable(),
        b.serializable(),
        encode_key(a) == encode_key(b),
    ensures
        a == b,
{
    let empty = Seq::<u8>::empty();
    lemma_decode_encode_key(a, empty);
    lemma_decode_encode_key(b, empty);
}

impl Key {
    /// The key without the rights that a capability carries.
    pub fn normalize(&self) -> (r: Key)
        ensures
            r@ == self@.normalize(),
    {
        match self {
            Key::Account(addr) => Key::Account(*addr),
            Key::Hash(addr) => Key::Hash(*addr),
            Key::URef(uref) => Key::URef(uref.remove_access_rights()),
            Key::Local(name) => Key::Local(slice_to_vec(name.as_slice())),
        }
    }

    /// The capability, if the key is one.
    pub fn as_uref(&self) -> (r: Option<URef>)
        ensures
            r == match self@ {
                KeyView::URef(uref) => Some(uref),
                _ => None,
            },
    {
        match self {
            Key::URef(uref) => Some(*uref),
            _ => None,
        }
    }
}

impl ToBytes for Key {
    open spec fn encoding(&self) -> Result<Seq<u8>, Error> {
        if self@.serializable() {
            Ok(encode_key(self@))
        } else {
            Err(Error::OutOfMemory)
        }
    }

    fn to_bytes(&self) -> (r: Result<Vec<u8>, Error>) {
        let mut out: Vec<u8> = Vec::new();
        match self {
            Key::Account(addr) => {
                out.push(ACCOUNT_TAG);
                out.extend_from_slice(addr.as_slice());
                assert(out@ =~= encode_key(self@));
            },
            Key::Hash(addr) => {
                out.push(HASH_TAG);
                out.extend_from_slice(addr.as_slice());
                assert(out@ =~= encode_key(self@));
            },
            Key::URef(uref) => {
                out.push(UREF_TAG);
                out.extend_from_slice(uref.addr.as_slice());
                out.push(uref.access_rights.bits());
                assert(out@ =~= encode_key(self@));
            },
            Key::Local(name) => {
                out.push(LOCAL_TAG);
                match bytes_to_bytes(name.as_slice()) {
                    Ok(body) => {
                        out.extend_from_slice(body.as_slice());
                        assert(out@ =~= encode_key(self@));
                    },
                    Err(e) => {
                        return Err(e);
                    },
                }
            },
        }
        Ok(out)
    }
}

impl FromBytes for Key {
    open spec fn parse(bytes: Seq<u8>) -> Parsed<KeyView> {
        decode_key(bytes)
    }

    fn from_bytes<'a>(bytes: &'a [u8]) -> (r: Result<(Self, &'a [u8]), Error>) {
        if bytes.len() < 1 {
            return Err(Error::EarlyEndOfStream);
        }
        let tag = bytes[0];
        let body = slice_subrange(bytes, 1, bytes.len());
        if tag == ACCOUNT_TAG {
            match <[u8; 32]>::from_bytes(body) {
                Ok((addr, rest)) => {
                    proof {
                        lemma_addr_of(addr);
                    }
                    Ok((Key::Account(addr), rest))
                },
                Err(e) => Err(e),
            }
        } else if tag == HASH_TAG {
            match <[u8; 32]>::from_bytes(body) {
                Ok((addr, rest)) => {
                    proof {
                        lemma_addr_of(addr);
                    }
                    Ok((Key::Hash(addr), rest))
                },
                Err(e) => Err(e),
            }
        } else if tag == UREF_TAG {
            match URef::from_bytes(body) {
                Ok((uref, rest)) => Ok((Key::URef(uref), rest)),
                Err(e) => Err(e),
            }
        } else if tag == LOCAL_TAG {
            match bytes_from_bytes(body) {
                Ok((name, rest)) => Ok((Key::Local(slice_to_vec(name)), rest)),
                Err(e) => Err(e),
            }
        } else {
            Err(Error::Formatting)
        }
    }
}

} // verus!
