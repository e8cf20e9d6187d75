//! The byte encoding of everything that crosses the host boundary.
//!
//! Integers are little-endian and fixed-width. A byte string, a text or a list
//! is a `u32` count followed by its items. Every encoder has a specification
//! function over the mathematical view of its input, every decoder one over the
//! input bytes, and for every kind a lemma shows that decoding an encoding
//! gives the value back and leaves what followed it untouched.

use vstd::bytes::*;
use vstd::prelude::*;
use vstd::slice::*;
use vstd::utf8::*;

verus! {

/// Why a value could not be encoded or decoded.
#[derive(Clone, Copy, Debug, PartialEq, Eq, Structural)]
pub enum Error {
    /// The input ended before the value was complete.
    EarlyEndOfStream,
    /// The input is long enough but does not encode a value of the kind asked for.
    Formatting,
    /// A complete value was decoded and bytes were left behind it.
    LeftOverBytes,
    /// A length does not fit the 32-bit count that the encoding gives it.
    OutOfMemory,
    /// The stored value is of another kind than the one asked for.
    TypeMismatch,
}

/// A decoded value together with the input that follows it.
pub type Parsed<V> = Result<(V, Seq<u8>), Error>;

/// A type with a byte encoding.
pub trait ToBytes {
    /// The encoding of `self`, or the reason why it has none.
    spec fn encoding(&self) -> Result<Seq<u8>, Error>;

    /// Encodes `self`.
    fn to_bytes(&self) -> (r: Result<Vec<u8>, Error>)
        ensures
            match r {
                Ok(bytes) => self.encoding() == Ok::<Seq<u8>, Error>(bytes@),
                Err(e) => self.encoding() == Err::<Seq<u8>, Error>(e),
            },
    ;
}

/// A type that can be decoded from the front of a byte string.
pub trait FromBytes: Sized + View {
    /// What the front of `bytes` decodes to, and what follows it.
    spec fn parse(bytes: Seq<u8>) -> Parsed<Self::V>;

    /// Decodes one value from the front of `bytes` and hands back the rest.
    fn from_bytes<'a>(bytes: &'a [u8]) -> (r: Result<(Self, &'a [u8]), Error>)
        ensures
            match r {
                Ok((value, rest)) => Self::parse(bytes@) == Ok::<_, Error>((value@, rest@)),
                Err(e) => Self::parse(bytes@) == Err::<(Self::V, Seq<u8>), _>(e),
            },
    ;
}

/// What `bytes` decodes to when it must hold exactly one value.
pub open spec fn exactly<V>(parsed: Parsed<V>) -> Result<V, Error> {
    match parsed {
        Ok((value, rest)) => if rest.len() == 0 {
            Ok(value)
        } else {
            Err(Error::LeftOverBytes)
        },
        Err(e) => Err(e),
    }
}

/// Decodes `bytes` as exactly one `T`: trailing bytes are an error.
pub fn deserialize<T: FromBytes>(bytes: &[u8]) -> (r: Result<T, Error>)
    ensures
        match r {
            Ok(value) => exactly(T::parse(bytes@)) == Ok::<T::V, Error>(value@),
            Err(e) => exactly(T::parse(bytes@)) == Err::<T::V, Error>(e),
        },
{
    match T::from_bytes(bytes) {
        Ok((value, rest)) => {
            if rest.len() == 0 {
                Ok(value)
            } else {
                Err(Error::LeftOverBytes)
            }
        },
        Err(e) => Err(e),
    }
}

/// Whether a collection of `len` items has a length that the encoding can carry.
pub open spec fn fits_u32(len: nat) -> bool {
    len <= u32::MAX
}

// ---------------------------------------------------------------------------
// u8
// ---------------------------------------------------------------------------

/// One byte stands for itself.
pub open spec fn encode_u8(x: u8) -> Seq<u8> {
    seq![x]
}

/// The first byte of `bytes`.
pub open spec fn decode_u8(bytes: Seq<u8>) -> Parsed<u8> {
    if bytes.len() < 1 {
        Err(Error::EarlyEndOfStream)
    } else {
        Ok((bytes[0], bytes.skip(1)))
    }
}

/// Decoding an encoded byte gives it back and leaves the rest of the input.
pub proof fn lemma_decode_encode_u8(x: u8, rest: Seq<u8>)
    ensures
        decode_u8(encode_u8(x) + rest) == Ok::<_, Error>((x, rest)),
{
    assert((encode_u8(x) + rest).skip(1) =~= rest);
}

impl ToBytes for u8 {
    open spec fn encoding(&self) -> Result<Seq<u8>, Error> {
        Ok(encode_u8(*self))
    }

    fn to_bytes(&self) -> (r: Result<Vec<u8>, Error>) {
        let mut out: Vec<u8> = Vec::new();
        out.push(*self);
        assert(out@ =~= encode_u8(*self));
        Ok(out)
    }
}

impl FromBytes for u8 {
    open spec fn parse(bytes: Seq<u8>) -> Parsed<u8> {
        decode_u8(bytes)
    }

    fn from_bytes<'a>(bytes: &'a [u8]) -> (r: Result<(Self, &'a [u8]), Error>) {
        if bytes.len() < 1 {
            Err(Error::EarlyEndOfStream)
        } else {
            Ok((bytes[0], slice_subrange(bytes, 1, bytes.len())))
        }
    }
}

// ---------------------------------------------------------------------------
// u32
// ---------------------------------------------------------------------------

/// Four bytes, least significant first.
pub open spec fn encode_u32(x: u32) -> Seq<u8> {
    spec_u32_to_le_bytes(x)
}

/// The `u32` that the first four bytes of `bytes` spell.
pub open spec fn decode_u32(bytes: Seq<u8>) -> Parsed<u32> {
    if bytes.len() < 4 {
        Err(Error::EarlyEndOfStream)
    } else {
        Ok((spec_u32_from_le_bytes(bytes.subrange(0, 4)), bytes.skip(4)))
    }
}

/// Decoding an encoded `u32` gives it back and leaves the rest of the input.
pub proof fn lemma_decode_encode_u32(x: u32, rest: Seq<u8>)
    ensures
        decode_u32(encode_u32(x) + rest) == Ok::<_, Error>((x, rest)),
{
    lemma_auto_spec_u32_to_from_le_bytes();
    let all = encode_u32(x) + rest;
    assert(all.subrange(0, 4) =~= encode_u32(x));
    assert(all.skip(4) =~= rest);
}

impl ToBytes for u32 {
    open spec fn encoding(&self) -> Result<Seq<u8>, Error> {
        Ok(encode_u32(*self))
    }

    fn to_bytes(&self) -> (r: Result<Vec<u8>, Error>) {
        Ok(u32_to_le_bytes(*self))
    }
}

impl FromBytes for u32 {
    open spec fn parse(bytes: Seq<u8>) -> Parsed<u32> {
        decode_u32(bytes)
    }

    fn from_bytes<'a>(bytes: &'a [u8]) -> (r: Result<(Self, &'a [u8]), Error>) {
        if bytes.len() < 4 {
            Err(Error::EarlyEndOfStream)
        } else {
            let x = u32_from_le_bytes(slice_subrange(bytes, 0, 4));
            Ok((x, slice_subrange(bytes, 4, bytes.len())))
        }
    }
}

// ---------------------------------------------------------------------------
// i32
// ---------------------------------------------------------------------------

/// The two's complement of `x`, as a `u32` is encoded.
pub open spec fn encode_i32(x: i32) -> Seq<u8> {
    encode_u32(x as u32)
}

/// The `i32` whose two's complement the first four bytes of `bytes` spell.
pub open spec fn decode_i32(bytes: Seq<u8>) -> Parsed<i32> {
    match decode_u32(bytes) {
        Ok((x, rest)) => Ok((x as i32, rest)),
        Err(e) => Err(e),
    }
}

/// Decoding an encoded `i32` gives it back and leaves the rest of the input.
pub proof fn lemma_decode_encode_i32(x: i32, rest: Seq<u8>)
    ensures
        decode_i32(encode_i32(x) + rest) == Ok::<_, Error>((x, rest)),
{
    lemma_decode_encode_u32(x as u32, rest);
    assert((x as u32) as i32 == x) by (bit_vector);
}

impl ToBytes for i32 {
    open spec fn encoding(&self) -> Result<Seq<u8>, Error> {
        Ok(encode_i32(*self))
    }

    fn to_bytes(&self) -> (r: Result<Vec<u8>, Error>) {
        Ok(u32_to_le_bytes(#[verifier::truncate] (*self as u32)))
    }
}

impl FromBytes for i32 {
    open spec fn parse(bytes: Seq<u8>) -> Parsed<i32> {
        decode_i32(bytes)
    }

    fn from_bytes<'a>(bytes: &'a [u8]) -> (r: Result<(Self, &'a [u8]), Error>) {
        match u32::from_bytes(bytes) {
            Ok((x, rest)) => Ok((#[verifier::truncate] (x as i32), rest)),
            Err(e) => Err(e),
        }
    }
}

// ---------------------------------------------------------------------------
// u64
// ---------------------------------------------------------------------------

/// Eight bytes, least significant first.
pub open spec fn encode_u64(x: u64) -> Seq<u8> {
    spec_u64_to_le_bytes(x)
}

/// The `u64` that the first eight bytes of `bytes` spell.
pub open spec fn decode_u64(bytes: Seq<u8>) -> Parsed<u64> {
    if bytes.len() < 8 {
        Err(Error::EarlyEndOfStream)
    } else {
        Ok((spec_u64_from_le_bytes(bytes.subrange(0, 8)), bytes.skip(8)))
    }
}

/// Decoding an encoded `u64` gives it back and leaves the rest of the input.
pub proof fn lemma_decode_encode_u64(x: u64, rest: Seq<u8>)
    ensures
        decode_u64(encode_u64(x) + rest) == Ok::<_, Error>((x, rest)),
{
    lemma_auto_spec_u64_to_from_le_bytes();
    let all = encode_u64(x) + rest;
    assert(all.subrange(0, 8) =~= encode_u64(x));
    assert(all.skip(8) =~= rest);
}

impl ToBytes for u64 {
    open spec fn encoding(&self) -> Result<Seq<u8>, Error> {
        Ok(encode_u64(*self))
    }

    fn to_bytes(&self) -> (r: Result<Vec<u8>, Error>) {
        Ok(u64_to_le_bytes(*self))
    }
}

impl FromBytes for u64 {
    open spec fn parse(bytes: Seq<u8>) -> Parsed<u64> {
        decode_u64(bytes)
    }

    fn from_bytes<'a>(bytes: &'a [u8]) -> (r: Result<(Self, &'a [u8]), Error>) {
        if bytes.len() < 8 {
            Err(Error::EarlyEndOfStream)
        } else {
            let x = u64_from_le_bytes(slice_subrange(bytes, 0, 8));
            Ok((x, slice_subrange(bytes, 8, bytes.len())))
        }
    }
}

// ---------------------------------------------------------------------------
// byte strings
// ---------------------------------------------------------------------------

/// The count of the bytes, then the bytes.
pub open spec fn encode_bytes(s: Seq<u8>) -> Seq<u8> {
    encode_u32(s.len() as u32) + s
}

/// The byte string at the front of `bytes`: as many bytes as its count says.
pub open spec fn decode_bytes(bytes: Seq<u8>) -> Parsed<Seq<u8>> {
    match decode_u32(bytes) {
        Ok((len, rest)) => if rest.len() < len {
            Err(Error::EarlyEndOfStream)
        } else {
            Ok((rest.take(len as int), rest.skip(len as int)))
        },
        Err(e) => Err(e),
    }
}

/// Decoding an encoded byte string gives it back and leaves the rest of the input.
pub proof fn lemma_decode_encode_bytes(s: Seq<u8>, rest: Seq<u8>)
    requires
        fits_u32(s.len()),
    ensures
        decode_bytes(encode_bytes(s) + rest) == Ok::<_, Error>((s, rest)),
{
    lemma_decode_encode_u32(s.len() as u32, s + rest);
    assert(encode_bytes(s) + rest =~= encode_u32(s.len() as u32) + (s + rest));
    assert((s + rest).take(s.len() as int) =~= s);
    assert((s + rest).skip(s.len() as int) =~= rest);
}

/// Encodes a byte string.
pub fn bytes_to_bytes(s: &[u8]) -> (r: Result<Vec<u8>, Error>)
    ensures
        match r {
            Ok(out) => fits_u32(s@.len()) && out@ == encode_bytes(s@),
            Err(e) => !fits_u32(s@.len()) && e == Error::OutOfMemory,
        },
{
    if s.len() > u32::MAX as usize {
        return Err(Error::OutOfMemory);
    }
    let mut out = u32_to_le_bytes(s.len() as u32);
    out.extend_from_slice(s);
    assert(out@ =~= encode_bytes(s@));
    Ok(out)
}

/// Decodes a byte string from the front of `bytes`, without copying it.
pub fn bytes_from_bytes<'a>(bytes: &'a [u8]) -> (r: Result<(&'a [u8], &'a [u8]), Error>)
    ensures
        match r {
            Ok((s, rest)) => decode_bytes(bytes@) == Ok::<_, Error>((s@, rest@)),
            Err(e) => decode_bytes(bytes@) == Err::<(Seq<u8>, Seq<u8>), _>(e),
        },
{
    match u32::from_bytes(bytes) {
        Ok((len, rest)) => {
            if rest.len() < len as usize {
                Err(Error::EarlyEndOfStream)
            } else {
                let s = slice_subrange(rest, 0, len as usize);
                Ok((s, slice_subrange(rest, len as usize, rest.len())))
            }
        },
        Err(e) => Err(e),
    }
}

impl ToBytes for Vec<u8> {
    open spec fn encoding(&self) -> Result<Seq<u8>, Error> {
        if fits_u32(self@.len()) {
            Ok(encode_bytes(self@))
        } else {
            Err(Error::OutOfMemory)
        }
    }

    fn to_bytes(&self) -> (r: Result<Vec<u8>, Error>) {
        bytes_to_bytes(self.as_slice())
    }
}

impl FromBytes for Vec<u8> {
    open spec fn parse(bytes: Seq<u8>) -> Parsed<Seq<u8>> {
        decode_bytes(bytes)
    }

    fn from_bytes<'a>(bytes: &'a [u8]) -> (r: Result<(Self, &'a [u8]), Error>) {
        match bytes_from_bytes(bytes) {
            Ok((s, rest)) => Ok((slice_to_vec(s), rest)),
            Err(e) => Err(e),
        }
    }
}

// ---------------------------------------------------------------------------
// 32-byte addresses
// ---------------------------------------------------------------------------

/// The number of bytes in an address.
pub const ADDR_SIZE: usize = 32;

/// An address is written as it stands, without a count.
pub open spec fn decode_addr(bytes: Seq<u8>) -> Parsed<Seq<u8>> {
    if bytes.len() < ADDR_SIZE {
        Err(Error::EarlyEndOfStream)
    } else {
        Ok((bytes.take(ADDR_SIZE as int), bytes.skip(ADDR_SIZE as int)))
    }
}

/// An address in front of other input decodes as itself and leaves the rest.
pub proof fn lemma_decode_addr(addr: Seq<u8>, rest: Seq<u8>)
    requires
        addr.len() == ADDR_SIZE,
    ensures
        decode_addr(addr + rest) == Ok::<_, Error>((addr, rest)),
{
    assert((addr + rest).take(ADDR_SIZE as int) =~= addr);
    assert((addr + rest).skip(ADDR_SIZE as int) =~= rest);
}

impl ToBytes for [u8; 32] {
    open spec fn encoding(&self) -> Result<Seq<u8>, Error> {
        Ok(self@)
    }

    fn to_bytes(&self) -> (r: Result<Vec<u8>, Error>) {
        Ok(slice_to_vec(self.as_slice()))
    }
}

impl FromBytes for [u8; 32] {
    open spec fn parse(bytes: Seq<u8>) -> Parsed<Seq<u8>> {
        decode_addr(bytes)
    }

    fn from_bytes<'a>(bytes: &'a [u8]) -> (r: Result<(Self, &'a [u8]), Error>) {
        if bytes.len() < ADDR_SIZE {
            return Err(Error::EarlyEndOfStream);
        }
        let mut addr = [0u8; 32];
        let mut i: usize = 0;
        while i < ADDR_SIZE
            invariant
                i <= ADDR_SIZE,
                bytes@.len() >= ADDR_SIZE,
                forall|j: int| 0 <= j < i ==> addr@[j] == bytes@[j],
            decreases ADDR_SIZE - i,
        {
            addr[i] = bytes[i];
            i += 1;
        }
        assert(addr@ =~= bytes@.take(ADDR_SIZE as int));
        Ok((addr, slice_subrange(bytes, ADDR_SIZE, bytes.len())))
    }
}

// ---------------------------------------------------------------------------
// text
// ---------------------------------------------------------------------------

/// A text is the byte string of its UTF-8 encoding.
pub open spec fn encode_string(s: Seq<char>) -> Seq<u8> {
    encode_bytes(encode_utf8(s))
}

/// Whether the UTF-8 encoding of `s` is short enough to be counted.
pub open spec fn string_fits(s: Seq<char>) -> bool {
    fits_u32(encode_utf8(s).len())
}

/// The text at the front of `bytes`: a byte string that must be valid UTF-8.
pub open spec fn decode_string(bytes: Seq<u8>) -> Parsed<Seq<char>> {
    match decode_bytes(bytes) {
        Ok((raw, rest)) => if valid_utf8(raw) {
            Ok((decode_utf8(raw), rest))
        } else {
            Err(Error::Formatting)
        },
        Err(e) => Err(e),
    }
}

/// Decoding an encoded text gives it back and leaves the rest of the input.
pub proof fn lemma_decode_encode_string(s: Seq<char>, rest: Seq<u8>)
    requires
        string_fits(s),
    ensures
        decode_string(encode_string(s) + rest) == Ok::<_, Error>((s, rest)),
{
    lemma_decode_encode_bytes(encode_utf8(s), rest);
    encode_utf8_valid_utf8(s);
    encode_utf8_decode_utf8(s);
}

/// `String::from_utf8`: the text whose UTF-8 encoding is `bytes`, and nothing
/// when `bytes` is not the UTF-8 encoding of any text.
#[verifier::external_body]
fn string_from_utf8(bytes: Vec<u8>) -> (r: Option<String>)
    ensures
        r is Some <==> valid_utf8(bytes@),
        r matches Some(s) ==> encode_utf8(s@) == bytes@,
{
    match String::from_utf8(bytes) {
        Ok(s) => Some(s),
        Err(_) => None,
    }
}

/// Encodes a text.
pub fn str_to_bytes(s: &str) -> (r: Result<Vec<u8>, Error>)
    ensures
        match r {
            Ok(out) => string_fits(s@) && out@ == encode_string(s@),
            Err(e) => !string_fits(s@) && e == Error::OutOfMemory,
        },
{
    bytes_to_bytes(s.as_bytes())
}

impl ToBytes for String {
    open spec fn encoding(&self) -> Result<Seq<u8>, Error> {
        if string_fits(self@) {
            Ok(encode_string(self@))
        } else {
            Err(Error::OutOfMemory)
        }
    }

    fn to_bytes(&self) -> (r: Result<Vec<u8>, Error>) {
        str_to_bytes(self.as_str())
    }
}

impl FromBytes for String {
    open spec fn parse(bytes: Seq<u8>) -> Parsed<Seq<char>> {
        decode_string(bytes)
    }

    fn from_bytes<'a>(bytes: &'a [u8]) -> (r: Result<(Self, &'a [u8]), Error>) {
        match bytes_from_bytes(bytes) {
            Ok((raw, rest)) => {
                match string_from_utf8(slice_to_vec(raw)) {
                    Some(s) => {
                        proof {
                            encode_utf8_decode_utf8(s@);
                        }
                        Ok((s, rest))
                    },
                    None => Err(Error::Formatting),
                }
            },
            Err(e) => Err(e),
        }
    }
}

// ---------------------------------------------------------------------------
// lists of i32
// ---------------------------------------------------------------------------

/// The items of a list, one after the other.
pub open spec fn encode_i32_items(items: Seq<i32>) -> Seq<u8>
    decreases items.len(),
{
    if items.len() == 0 {
        Seq::<u8>::empty()
    } else {
        encode_i32(items[0]) + encode_i32_items(items.drop_first())
    }
}

/// The count of the items, then the items.
pub open spec fn encode_i32_list(items: Seq<i32>) -> Seq<u8> {
    encode_u32(items.len() as u32) + encode_i32_items(items)
}

/// Decodes `count` items from the front of `bytes`.
pub open spec fn decode_i32_items(bytes: Seq<u8>, count: nat) -> Parsed<Seq<i32>>
    decreases count,
{
    if count == 0 {
        Ok((Seq::<i32>::empty(), bytes))
    } else {
        match decode_i32(bytes) {
            Ok((x, rest)) => match decode_i32_items(rest, (count - 1) as nat) {
                Ok((xs, left)) => Ok((seq![x] + xs, left)),
                Err(e) => Err(e),
            },
            Err(e) => Err(e),
        }
    }
}

/// The list at the front of `bytes`: as many items as its count says.
pub open spec fn decode_i32_list(bytes: Seq<u8>) -> Parsed<Seq<i32>> {
    match decode_u32(bytes) {
        Ok((count, rest)) => decode_i32_items(rest, count as nat),
        Err(e) => Err(e),
    }
}

/// Encoding one more item appends its encoding.
proof fn lemma_encode_i32_items_push(items: Seq<i32>, x: i32)
    ensures
        encode_i32_items(items.push(x)) == encode_i32_items(items) + encode_i32(x),
    decreases items.len(),
{
    if items.len() == 0 {
        assert(items.push(x).drop_first() =~= Seq::<i32>::empty());
        assert(encode_i32_items(Seq::<i32>::empty()) =~= Seq::<u8>::empty());
        assert(encode_i32_items(items.push(x)) =~= encode_i32(x));
        assert(encode_i32_items(items) + encode_i32(x) =~= encode_i32(x));
    } else {
        lemma_encode_i32_items_push(items.drop_first(), x);
        assert(items.push(x).drop_first() =~= items.drop_first().push(x));
        assert(encode_i32_items(items.push(x)) =~= encode_i32_items(items) + encode_i32(x));
    }
}

/// Decoding encoded items gives them back and leaves the rest of the input.
pub proof fn lemma_decode_encode_i32_items(items: Seq<i32>, rest: Seq<u8>)
    ensures
        decode_i32_items(encode_i32_items(items) + rest, items.len()) == Ok::<_, Error>(
            (items, rest),
        ),
    decreases items.len(),
{
    if items.len() == 0 {
        assert(encode_i32_items(items) + rest =~= rest);
        assert(items =~= Seq::<i32>::empty());
    } else {
        let tail = items.drop_first();
        let after = encode_i32_items(tail) + rest;
        assert(encode_i32_items(items) + rest =~= encode_i32(items[0]) + after);
        lemma_decode_encode_i32(items[0], after);
        lemma_decode_encode_i32_items(tail, rest);
        assert(seq![items[0]] + tail =~= items);
    }
}

/// Decoding an encoded list gives it back and leaves the rest of the input.
pub proof fn lemma_decode_encode_i32_list(items: Seq<i32>, rest: Seq<u8>)
    requires
        fits_u32(items.len()),
    ensures
        decode_i32_list(encode_i32_list(items) + rest) == Ok::<_, Error>((items, rest)),
{
    let after = encode_i32_items(items) + rest;
    assert(encode_i32_list(items) + rest =~= encode_u32(items.len() as u32) + after);
    lemma_decode_encode_u32(items.len() as u32, after);
    lemma_decode_encode_i32_items(items, rest);
}

/// Decoding at least one item is decoding the first and then the others.
proof fn lemma_decode_i32_items_step(bytes: Seq<u8>, count: nat)
    requires
        count > 0,
    ensures
        decode_i32_items(bytes, count) == match decode_i32(bytes) {
            Ok((x, rest)) => match decode_i32_items(rest, (count - 1) as nat) {
                Ok((xs, left)) => Ok::<_, Error>((seq![x] + xs, left)),
                Err(e) => Err(e),
            },
            Err(e) => Err(e),
        },
{
}

impl ToBytes for Vec<i32> {
    open spec fn encoding(&self) -> Result<Seq<u8>, Error> {
        if fits_u32(self@.len()) {
            Ok(encode_i32_list(self@))
        } else {
            Err(Error::OutOfMemory)
        }
    }

    fn to_bytes(&self) -> (r: Result<Vec<u8>, Error>) {
        if self.len() > u32::MAX as usize {
            return Err(Error::OutOfMemory);
        }
        let mut out = u32_to_le_bytes(self.len() as u32);
        let mut i: usize = 0;
        while i < self.len()
            invariant
                i <= self@.len(),
                out@ == encode_u32(self@.len() as u32) + encode_i32_items(self@.take(i as int)),
            decreases self@.len() - i,
        {
            let item = u32_to_le_bytes(#[verifier::truncate] (self[i] as u32));
            proof {
                lemma_encode_i32_items_push(self@.take(i as int), self@[i as int]);
                assert(self@.take(i + 1) =~= self@.take(i as int).push(self@[i as int]));
            }
            let ghost before = out@;
            out.extend_from_slice(item.as_slice());
            assert(out@ =~= before + item@);
            i += 1;
            assert(out@ =~= encode_u32(self@.len() as u32) + encode_i32_items(
                self@.take(i as int),
            ));
        }
        assert(self@.take(i as int) =~= self@);
        Ok(out)
    }
}

impl FromBytes for Vec<i32> {
    open spec fn parse(bytes: Seq<u8>) -> Parsed<Seq<i32>> {
        decode_i32_list(bytes)
    }

    fn from_bytes<'a>(bytes: &'a [u8]) -> (r: Result<(Self, &'a [u8]), Error>) {
        let (count, start) = match u32::from_bytes(bytes) {
            Ok(pair) => pair,
            Err(e) => {
                return Err(e);
            },
        };
        let mut items: Vec<i32> = Vec::new();
        let mut cur = start;
        let mut i: u32 = 0;
        while i < count
            invariant
                i <= count,
                decode_u32(bytes@) == Ok::<_, Error>((count, start@)),
                decode_i32_items(start@, count as nat) == match decode_i32_items(
                    cur@,
                    (count - i) as nat,
                ) {
                    Ok((xs, left)) => Ok::<_, Error>((items@ + xs, left)),
                    Err(e) => Err(e),
                },
            decreases count - i,
        {
            proof {
                lemma_decode_i32_items_step(cur@, (count - i) as nat);
            }
            match i32::from_bytes(cur) {
                Ok((x, rest)) => {
                    proof {
                        match decode_i32_items(rest@, (count - i - 1) as nat) {
                            Ok((xs, left)) => {
                                assert(items@.push(x) + xs =~= items@ + (seq![x] + xs));
                            },
                            Err(e) => {},
                        }
                    }
                    items.push(x);
                    cur = rest;
                },
                Err(e) => {
                    return Err(e);
                },
            }
            i += 1;
        }
        assert(items@ + Seq::<i32>::empty() =~= items@);
        Ok((items, cur))
    }
}

} // verus!
