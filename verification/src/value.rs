//! The values that a slot can hold, and the kinds they narrow to.

use crate::bytesrepr::{
    bytes_from_bytes, bytes_to_bytes, decode_addr, decode_bytes, decode_i32, decode_i32_list,
    decode_string, decode_u64, encode_bytes, encode_i32, encode_i32_list, encode_string,
    encode_u64, fits_u32, lemma_decode_addr, lemma_decode_encode_bytes, lemma_decode_encode_i32,
    lemma_decode_encode_i32_list, lemma_decode_encode_string, lemma_decode_encode_u64,
    string_fits, Error, FromBytes, Parsed, ToBytes,
};
use crate::key::{decode_key, encode_key, lemma_decode_encode_key, Key, KeyView};
use crate::named_keys::{
    decode_named_keys, encode_named_keys, lemma_decode_encode_named_keys, named_keys_serializable,
    names_increasing, Entries, NamedKeys,
};
use crate::uref::{addr_of, lemma_addr_of};
use vstd::prelude::*;
use vstd::slice::*;

verus! {

/// The first byte of an encoded `Value::Int32`.
pub const INT32_TAG: u8 = 0;

/// The first byte of an encoded `Value::ByteArray`.
pub const BYTE_ARRAY_TAG: u8 = 1;

/// The first byte of an encoded `Value::ListInt32`.
pub const LIST_INT32_TAG: u8 = 2;

/// The first byte of an encoded `Value::String`.
pub const STRING_TAG: u8 = 3;

/// The first byte of an encoded `Value::Account`.
pub const ACCOUNT_RECORD_TAG: u8 = 4;

/// The first byte of an encoded `Value::Contract`.
pub const CONTRACT_TAG: u8 = 5;

/// The first byte of an encoded `Value::Key`.
pub const KEY_TAG: u8 = 6;

/// The first byte of an encoded `Value::Unit`.
pub const UNIT_TAG: u8 = 7;

/// The first byte of an encoded `Value::UInt64`.
pub const UINT64_TAG: u8 = 8;

// ---------------------------------------------------------------------------
// contract records
// ---------------------------------------------------------------------------

/// Published code with the directory of keys it may name.
#[derive(Debug, PartialEq, Eq)]
pub struct Contract {
    pub code: Vec<u8>,
    pub named_keys: NamedKeys,
}

/// A contract record as a mathematical value.
pub struct ContractView {
    pub code: Seq<u8>,
    pub named_keys: Entries,
}

impl View for Contract {
    type V = ContractView;

    open spec fn view(&self) -> ContractView {
        ContractView { code: self.code@, named_keys: self.named_keys@ }
    }
}

impl Clone for Contract {
    fn clone(&self) -> (r: Contract)
        ensures
            r@ == self@,
    {
        Contract { code: slice_to_vec(self.code.as_slice()), named_keys: self.named_keys.clone() }
    }
}

impl Contract {
    /// The record of `code` with the directory `named_keys`.
    pub fn new(code: Vec<u8>, named_keys: NamedKeys) -> (r: Contract)
        ensures
            r@ == (ContractView { code: code@, named_keys: named_keys@ }),
    {
        Contract { code, named_keys }
    }
}

impl ContractView {
    /// Whether the record has an encoding: the code and the directory must have one.
    pub open spec fn serializable(self) -> bool {
        fits_u32(self.code.len()) && named_keys_serializable(self.named_keys)
    }

    /// Whether the names of the directory stand in order, as they do in every record held in memory.
    pub open spec fn well_formed(self) -> bool {
        names_increasing(self.named_keys)
    }
}

/// A contract record is its code as a byte string, then its directory.
pub open spec fn encode_contract(contract: ContractView) -> Seq<u8> {
    encode_bytes(contract.code) + encode_named_keys(contract.named_keys)
}

/// The contract record at the front of `bytes`: code, then a directory.
pub open spec fn decode_contract(bytes: Seq<u8>) -> Parsed<ContractView> {
    match decode_bytes(bytes) {
        Ok((code, rest)) => match decode_named_keys(rest) {
            Ok((named_keys, left)) => Ok((ContractView { code, named_keys }, left)),
            Err(e) => Err(e),
        },
        Err(e) => Err(e),
    }
}

/// Decoding an encoded contract record gives it back and leaves the rest of the input.
pub proof fn lemma_decode_encode_contract(contract: ContractView, rest: Seq<u8>)
    requires
        contract.serializable(),
        contract.well_formed(),
    ensures
        decode_contract(encode_contract(contract) + rest) == Ok::<_, Error>((contract, rest)),
{
    let after = encode_named_keys(contract.named_keys) + rest;
    assert(encode_contract(contract) + rest =~= encode_bytes(contract.code) + after);
    lemma_decode_encode_bytes(contract.code, after);
    lemma_decode_encode_named_keys(contract.named_keys, rest);
}

impl ToBytes for Contract {
    open spec fn encoding(&self) -> Result<Seq<u8>, Error> {
        if self@.serializable() {
            Ok(encode_contract(self@))
        } else {
            Err(Error::OutOfMemory)
        }
    }

    fn to_bytes(&self) -> (r: Result<Vec<u8>, Error>) {
        let mut out = match bytes_to_bytes(self.code.as_slice()) {
            Ok(bytes) => bytes,
            Err(e) => {
                return Err(e);
            },
        };
        match self.named_keys.to_bytes() {
            Ok(bytes) => {
                out.extend_from_slice(bytes.as_slice());
                assert(out@ =~= encode_contract(self@));
                Ok(out)
            },
            Err(e) => Err(e),
        }
    }
}

impl FromBytes for Contract {
    open spec fn parse(bytes: Seq<u8>) -> Parsed<ContractView> {
        decode_contract(bytes)
    }

    fn from_bytes<'a>(bytes: &'a [u8]) -> (r: Result<(Self, &'a [u8]), Error>) {
        let (code, rest) = match bytes_from_bytes(bytes) {
            Ok(pair) => pair,
            Err(e) => {
                return Err(e);
            },
        };
        match NamedKeys::from_bytes(rest) {
            Ok((named_keys, left)) => Ok((Contract { code: slice_to_vec(code), named_keys }, left)),
            Err(e) => Err(e),
        }
    }
}

// ---------------------------------------------------------------------------
// account records
// ---------------------------------------------------------------------------

/// The record of an account: who it belongs to and the keys it may name.
#[derive(Debug, PartialEq, Eq)]
pub struct Account {
    pub public_key: [u8; 32],
    pub named_keys: NamedKeys,
}

/// An account record as a mathematical value.
pub struct AccountView {
    pub public_key: [u8; 32],
    pub named_keys: Entries,
}

impl View for Account {
    type V = AccountView;

    open spec fn view(&self) -> AccountView {
        AccountView { public_key: self.public_key, named_keys: self.named_keys@ }
    }
}

impl Clone for Account {
    fn clone(&self) -> (r: Account)
        ensures
            r@ == self@,
    {
        Account { public_key: self.public_key, named_keys: self.named_keys.clone() }
    }
}

impl Account {
    /// The record of the account of `public_key` with the directory `named_keys`.
    pub fn new(public_key: [u8; 32], named_keys: NamedKeys) -> (r: Account)
        ensures
            r@ == (AccountView { public_key, named_keys: named_keys@ }),
    {
        Account { public_key, named_keys }
    }
}

impl AccountView {
    /// Whether the record has an encoding: the directory must have one.
    pub open spec fn serializable(self) -> bool {
        named_keys_serializable(self.named_keys)
    }

    /// Whether the names of the directory stand in order, as they do in every record held in memory.
    pub open spec fn well_formed(self) -> bool {
        names_increasing(self.named_keys)
    }
}

/// An account record is the address of its owner, then its directory.
pub open spec fn encode_account(account: AccountView) -> Seq<u8> {
    account.public_key@ + encode_named_keys(account.named_keys)
}

/// The account record at the front of `bytes`: an address, then a directory.
pub open spec fn decode_account(bytes: Seq<u8>) -> Parsed<AccountView> {
    match decode_addr(bytes) {
        Ok((public_key, rest)) => match decode_named_keys(rest) {
            Ok((named_keys, left)) => Ok(
                (AccountView { public_key: addr_of(public_key), named_keys }, left),
            ),
            Err(e) => Err(e),
        },
        Err(e) => Err(e),
    }
}

/// Decoding an encoded account record gives it back and leaves the rest of the input.
pub proof fn lemma_decode_encode_account(account: AccountView, rest: Seq<u8>)
    requires
        account.serializable(),
        account.well_formed(),
    ensures
        decode_account(encode_account(account) + rest) == Ok::<_, Error>((account, rest)),
{
    let after = encode_named_keys(account.named_keys) + rest;
    assert(encode_account(account) + rest =~= account.public_key@ + after);
    lemma_decode_addr(account.public_key@, after);
    lemma_addr_of(account.public_key);
    lemma_decode_encode_named_keys(account.named_keys, rest);
}

impl ToBytes for Account {
    open spec fn encoding(&self) -> Result<Seq<u8>, Error> {
        if self@.serializable() {
            Ok(encode_account(self@))
        } else {
            Err(Error::OutOfMemory)
        }
    }

    fn to_bytes(&self) -> (r: Result<Vec<u8>, Error>) {
        let mut out = slice_to_vec(self.public_key.as_slice());
        match self.named_keys.to_bytes() {
            Ok(bytes) => {
                out.extend_from_slice(bytes.as_slice());
                assert(out@ =~= encode_account(self@));
                Ok(out)
            },
            Err(e) => Err(e),
        }
    }
}

impl FromBytes for Account {
    open spec fn parse(bytes: Seq<u8>) -> Parsed<AccountView> {
        decode_account(bytes)
    }

    fn from_bytes<'a>(bytes: &'a [u8]) -> (r: Result<(Self, &'a [u8]), Error>) {
        let (public_key, rest) = match <[u8; 32]>::from_bytes(bytes) {
            Ok(pair) => pair,
            Err(e) => {
                return Err(e);
            },
        };
        proof {
            lemma_addr_of(public_key);
        }
        match NamedKeys::from_bytes(rest) {
            Ok((named_keys, left)) => Ok((Account { public_key, named_keys }, left)),
            Err(e) => Err(e),
        }
    }
}

// ---------------------------------------------------------------------------
// values
// ---------------------------------------------------------------------------

/// Anything that a slot can hold.
#[derive(Debug, PartialEq, Eq)]
pub enum Value {
    Unit,
    Int32(i32),
    UInt64(u64),
    ByteArray(Vec<u8>),
    ListInt32(Vec<i32>),
    String(String),
    Key(Key),
    Account(Account),
    Contract(Contract),
}

/// A value as a mathematical value.
pub enum ValueView {
    Unit,
    Int32(i32),
    UInt64(u64),
    ByteArray(Seq<u8>),
    ListInt32(Seq<i32>),
    String(Seq<char>),
    Key(KeyView),
    Account(AccountView),
    Contract(ContractView),
}

impl View for Value {
    type V = ValueView;

    open spec fn view(&self) -> ValueView {
        match self {
            Value::Unit => ValueView::Unit,
            Value::Int32(x) => ValueView::Int32(*x),
            Value::UInt64(x) => ValueView::UInt64(*x),
            Value::ByteArray(bytes) => ValueView::ByteArray(bytes@),
            Value::ListInt32(items) => ValueView::ListInt32(items@),
            Value::String(text) => ValueView::String(text@),
            Value::Key(key) => ValueView::Key(key@),
            Value::Account(account) => ValueView::Account(account@),
            Value::Contract(contract) => ValueView::Contract(contract@),
        }
    }
}

impl Clone for Value {
    fn clone(&self) -> (r: Value)
        ensures
            r@ == self@,
    {
        match self {
            Value::Unit => Value::Unit,
            Value::Int32(x) => Value::Int32(*x),
            Value::UInt64(x) => Value::UInt64(*x),
            Value::ByteArray(bytes) => Value::ByteArray(slice_to_vec(bytes.as_slice())),
            Value::ListInt32(items) => Value::ListInt32(slice_to_vec(items.as_slice())),
            Value::String(text) => Value::String(text.clone()),
            Value::Key(key) => Value::Key(key.clone()),
            Value::Account(account) => Value::Account(account.clone()),
            Value::Contract(contract) => Value::Contract(contract.clone()),
        }
    }
}

impl ValueView {
    /// Whether the value has an encoding: every length in it must fit its 32-bit count.
    pub open spec fn serializable(self) -> bool {
        match self {
            ValueView::Unit => true,
            ValueView::Int32(_) => true,
            ValueView::UInt64(_) => true,
            ValueView::ByteArray(bytes) => fits_u32(bytes.len()),
            ValueView::ListInt32(items) => fits_u32(items.len()),
            ValueView::String(text) => string_fits(text),
            ValueView::Key(key) => key.serializable(),
            ValueView::Account(account) => account.serializable(),
            ValueView::Contract(contract) => contract.serializable(),
        }
    }

    /// Whether the directories inside the value keep their names in order,
    /// as they do in every value held in memory.
    pub open spec fn well_formed(self) -> bool {
        match self {
            ValueView::Account(account) => account.well_formed(),
            ValueView::Contract(contract) => contract.well_formed(),
            _ => true,
        }
    }
}

/// A value is a tag that tells its kind, followed by the encoding of what it holds.
pub open spec fn encode_value(value: ValueView) -> Seq<u8> {
    match value {
        ValueView::Unit => seq![UNIT_TAG],
        ValueView::Int32(x) => seq![INT32_TAG] + encode_i32(x),
        ValueView::UInt64(x) => seq![UINT64_TAG] + encode_u64(x),
        ValueView::ByteArray(bytes) => seq![BYTE_ARRAY_TAG] + encode_bytes(bytes),
        ValueView::ListInt32(items) => seq![LIST_INT32_TAG] + encode_i32_list(items),
        ValueView::String(text) => seq![STRING_TAG] + encode_string(text),
        ValueView::Key(key) => seq![KEY_TAG] + encode_key(key),
        ValueView::Account(account) => seq![ACCOUNT_RECORD_TAG] + encode_account(account),
        ValueView::Contract(contract) => seq![CONTRACT_TAG] + encode_contract(contract),
    }
}

/// The value at the front of `bytes`: its tag decides how the rest is read,
/// and a tag that names no kind of value is ill-formed.
pub open spec fn decode_value(bytes: Seq<u8>) -> Parsed<ValueView> {
    if bytes.len() < 1 {
        Err(Error::EarlyEndOfStream)
    } else {
        let body = bytes.skip(1);
        if bytes[0] == UNIT_TAG {
            Ok((ValueView::Unit, body))
        } else if bytes[0] == INT32_TAG {
            match decode_i32(body) {
                Ok((x, rest)) => Ok((ValueView::Int32(x), rest)),
                Err(e) => Err(e),
            }
        } else if bytes[0] == UINT64_TAG {
            match decode_u64(body) {
                Ok((x, rest)) => Ok((ValueView::UInt64(x), rest)),
                Err(e) => Err(e),
            }
        } else if bytes[0] == BYTE_ARRAY_TAG {
            match decode_bytes(body) {
                Ok((x, rest)) => Ok((ValueView::ByteArray(x), rest)),
                Err(e) => Err(e),
            }
        } else if bytes[0] == LIST_INT32_TAG {
            match decode_i32_list(body) {
                Ok((x, rest)) => Ok((ValueView::ListInt32(x), rest)),
                Err(e) => Err(e),
            }
        } else if bytes[0] == STRING_TAG {
            match decode_string(body) {
                Ok((x, rest)) => Ok((ValueView::String(x), rest)),
                Err(e) => Err(e),
            }
        } else if bytes[0] == KEY_TAG {
            match decode_key(body) {
                Ok((x, rest)) => Ok((ValueView::Key(x), rest)),
                Err(e) => Err(e),
            }
        } else if bytes[0] == ACCOUNT_RECORD_TAG {
            match decode_account(body) {
                Ok((x, rest)) => Ok((ValueView::Account(x), rest)),
                Err(e) => Err(e),
            }
        } else if bytes[0] == CONTRACT_TAG {
            match decode_contract(body) {
                Ok((x, rest)) => Ok((ValueView::Contract(x), rest)),
                Err(e) => Err(e),
            }
        } else {
            Err(Error::Formatting)
        }
    }
}

/// Every encoding of a value has at least its tag, so no value encodes to nothing.
pub proof fn lemma_encode_value_nonempty(value: ValueView)
    ensures
        encode_value(value).len() > 0,
{
}

/// What follows a tag is the body and whatever followed the body.
proof fn lemma_tagged(tag: u8, body: Seq<u8>, rest: Seq<u8>)
    ensures
        (seq![tag] + body + rest).len() >= 1,
        (seq![tag] + body + rest)[0] == tag,
        (seq![tag] + body + rest).skip(1) == body + rest,
{
    assert((seq![tag] + body + rest).skip(1) =~= body + rest);
}

/// Decoding an encoded value gives the value back and leaves the rest of the input.
pub proof fn lemma_decode_encode_value(value: ValueView, rest: Seq<u8>)
    requires
        value.serializable(),
        value.well_formed(),
    ensures
        decode_value(encode_value(value) + rest) == Ok::<_, Error>((value, rest)),
{
    match value {
        ValueView::Unit => {
            lemma_tagged(UNIT_TAG, Seq::<u8>::empty(), rest);
            assert(seq![UNIT_TAG] + Seq::<u8>::empty() =~= seq![UNIT_TAG]);
            assert(Seq::<u8>::empty() + rest =~= rest);
        },
        ValueView::Int32(x) => {
            lemma_tagged(INT32_TAG, encode_i32(x), rest);
            lemma_decode_encode_i32(x, rest);
        },
        ValueView::UInt64(x) => {
            lemma_tagged(UINT64_TAG, encode_u64(x), rest);
            lemma_decode_encode_u64(x, rest);
        },
        ValueView::ByteArray(x) => {
            lemma_tagged(BYTE_ARRAY_TAG, encode_bytes(x), rest);
            lemma_decode_encode_bytes(x, rest);
        },
        ValueView::ListInt32(x) => {
            lemma_tagged(LIST_INT32_TAG, encode_i32_list(x), rest);
            lemma_decode_encode_i32_list(x, rest);
        },
        ValueView::String(x) => {
            lemma_tagged(STRING_TAG, encode_string(x), rest);
            lemma_decode_encode_string(x, rest);
        },
        ValueView::Key(x) => {
            lemma_tagged(KEY_TAG, encode_key(x), rest);
            lemma_decode_encode_key(x, rest);
        },
        ValueView::Account(x) => {
            lemma_tagged(ACCOUNT_RECORD_TAG, encode_account(x), rest);
            lemma_decode_encode_account(x, rest);
        },
        ValueView::Contract(x) => {
            lemma_tagged(CONTRACT_TAG, encode_contract(x), rest);
            lemma_decode_encode_contract(x, rest);
        },
    }
}

/// Puts `tag` in front of `body`.
fn tagged(tag: u8, body: &[u8]) -> (r: Vec<u8>)
    ensures
        r@ == seq![tag] + body@,
{
    let mut out: Vec<u8> = Vec::new();
    out.push(tag);
    out.extend_from_slice(body);
    assert(out@ =~= seq![tag] + body@);
    out
}

impl ToBytes for Value {
    open spec fn encoding(&self) -> Result<Seq<u8>, Error> {
        if self@.serializable() {
            Ok(encode_value(self@))
        } else {
            Err(Error::OutOfMemory)
        }
    }

    fn to_bytes(&self) -> (r: Result<Vec<u8>, Error>) {
        let (tag, body) = match self {
            Value::Unit => (UNIT_TAG, Ok(Vec::new())),
            Value::Int32(x) => (INT32_TAG, x.to_bytes()),
            Value::UInt64(x) => (UINT64_TAG, x.to_bytes()),
            Value::ByteArray(x) => (BYTE_ARRAY_TAG, x.to_bytes()),
            Value::ListInt32(x) => (LIST_INT32_TAG, x.to_bytes()),
            Value::String(x) => (STRING_TAG, x.to_bytes()),
            Value::Key(x) => (KEY_TAG, x.to_bytes()),
            Value::Account(x) => (ACCOUNT_RECORD_TAG, x.to_bytes()),
            Value::Contract(x) => (CONTRACT_TAG, x.to_bytes()),
        };
        match body {
            Ok(bytes) => {
                let out = tagged(tag, bytes.as_slice());
                assert(out@ =~= encode_value(self@));
                Ok(out)
            },
            Err(e) => Err(e),
        }
    }
}

impl FromBytes for Value {
    open spec fn parse(bytes: Seq<u8>) -> Parsed<ValueView> {
        decode_value(bytes)
    }

    fn from_bytes<'a>(bytes: &'a [u8]) -> (r: Result<(Self, &'a [u8]), Error>) {
        if bytes.len() < 1 {
            return Err(Error::EarlyEndOfStream);
        }
        let tag = bytes[0];
        let body = slice_subrange(bytes, 1, bytes.len());
        if tag == UNIT_TAG {
            Ok((Value::Unit, body))
        } else if tag == INT32_TAG {
            match i32::from_bytes(body) {
                Ok((x, rest)) => Ok((Value::Int32(x), rest)),
                Err(e) => Err(e),
            }
        } else if tag == UINT64_TAG {
            match u64::from_bytes(body) {
                Ok((x, rest)) => Ok((Value::UInt64(x), rest)),
                Err(e) => Err(e),
            }
        } else if tag == BYTE_ARRAY_TAG {
            match <Vec<u8>>::from_bytes(body) {
                Ok((x, rest)) => Ok((Value::ByteArray(x), rest)),
                Err(e) => Err(e),
            }
        } else if tag == LIST_INT32_TAG {
            match <Vec<i32>>::from_bytes(body) {
                Ok((x, rest)) => Ok((Value::ListInt32(x), rest)),
                Err(e) => Err(e),
            }
        } else if tag == STRING_TAG {
            match String::from_bytes(body) {
                Ok((x, rest)) => Ok((Value::String(x), rest)),
                Err(e) => Err(e),
            }
        } else if tag == KEY_TAG {
            match Key::from_bytes(body) {
                Ok((x, rest)) => Ok((Value::Key(x), rest)),
                Err(e) => Err(e),
            }
        } else if tag == ACCOUNT_RECORD_TAG {
            match Account::from_bytes(body) {
                Ok((x, rest)) => Ok((Value::Account(x), rest)),
                Err(e) => Err(e),
            }
        } else if tag == CONTRACT_TAG {
            match Contract::from_bytes(body) {
                Ok((x, rest)) => Ok((Value::Contract(x), rest)),
                Err(e) => Err(e),
            }
        } else {
            Err(Error::Formatting)
        }
    }
}

/// Establishes that the directories inside a value held in memory are in order.
pub fn value_well_formed(value: &Value)
    ensures
        value@.well_formed(),
{
    match value {
        Value::Account(account) => account.named_keys.ordered_names(),
        Value::Contract(contract) => contract.named_keys.ordered_names(),
        _ => {},
    }
}

// ---------------------------------------------------------------------------
// kinds
// ---------------------------------------------------------------------------

/// A kind of value: a type that a `Value` can be made from and narrowed to.
pub trait Storable: Sized + View {
    /// The value that holds `v`.
    spec fn widen(v: Self::V) -> ValueView;

    /// What `value` holds, if it is of this kind.
    spec fn narrow(value: ValueView) -> Option<Self::V>;

    /// Narrowing undoes widening.
    proof fn lemma_narrow_widen(v: Self::V)
        ensures
            Self::narrow(Self::widen(v)) == Some(v),
    ;

    /// Wraps `self` as a value. What comes out is well formed, as every
    /// value held in memory is.
    fn into_value(self) -> (r: Value)
        ensures
            r@ == Self::widen(self@),
            r@.well_formed(),
    ;

    /// Unwraps `value`, or gives nothing when it is of another kind.
    fn from_value(value: Value) -> (r: Option<Self>)
        ensures
            match r {
                Some(t) => Self::narrow(value@) == Some(t@),
                None => Self::narrow(value@) is None,
            },
    ;
}

impl Storable for Value {
    open spec fn widen(v: ValueView) -> ValueView {
        v
    }

    open spec fn narrow(value: ValueView) -> Option<ValueView> {
        Some(value)
    }

    proof fn lemma_narrow_widen(v: ValueView) {
    }

    fn into_value(self) -> (r: Value) {
        value_well_formed(&self);
        self
    }

    fn from_value(value: Value) -> (r: Option<Self>) {
        Some(value)
    }
}

impl Storable for () {
    open spec fn widen(v: ()) -> ValueView {
        ValueView::Unit
    }

    open spec fn narrow(value: ValueView) -> Option<()> {
        match value {
            ValueView::Unit => Some(()),
            _ => None,
        }
    }

    proof fn lemma_narrow_widen(v: ()) {
    }

    fn into_value(self) -> (r: Value) {
        Value::Unit
    }

    fn from_value(value: Value) -> (r: Option<Self>) {
        match value {
            Value::Unit => Some(()),
            _ => None,
        }
    }
}

impl Storable for i32 {
    open spec fn widen(v: i32) -> ValueView {
        ValueView::Int32(v)
    }

    open spec fn narrow(value: ValueView) -> Option<i32> {
        match value {
            ValueView::Int32(x) => Some(x),
            _ => None,
        }
    }

    proof fn lemma_narrow_widen(v: i32) {
    }

    fn into_value(self) -> (r: Value) {
        Value::Int32(self)
    }

    fn from_value(value: Value) -> (r: Option<Self>) {
        match value {
            Value::Int32(x) => Some(x),
            _ => None,
        }
    }
}

impl Storable for u64 {
    open spec fn widen(v: u64) -> ValueView {
        ValueView::UInt64(v)
    }

    open spec fn narrow(value: ValueView) -> Option<u64> {
        match value {
            ValueView::UInt64(x) => Some(x),
            _ => None,
        }
    }

    proof fn lemma_narrow_widen(v: u64) {
    }

    fn into_value(self) -> (r: Value) {
        Value::UInt64(self)
    }

    fn from_value(value: Value) -> (r: Option<Self>) {
        match value {
            Value::UInt64(x) => Some(x),
            _ => None,
        }
    }
}

impl Storable for Vec<u8> {
    open spec fn widen(v: Seq<u8>) -> ValueView {
        ValueView::ByteArray(v)
    }

    open spec fn narrow(value: ValueView) -> Option<Seq<u8>> {
        match value {
            ValueView::ByteArray(x) => Some(x),
            _ => None,
        }
    }

    proof fn lemma_narrow_widen(v: Seq<u8>) {
    }

    fn into_value(self) -> (r: Value) {
        Value::ByteArray(self)
    }

    fn from_value(value: Value) -> (r: Option<Self>) {
        match value {
            Value::ByteArray(x) => Some(x),
            _ => None,
        }
    }
}

impl Storable for Vec<i32> {
    open spec fn widen(v: Seq<i32>) -> ValueView {
        ValueView::ListInt32(v)
    }

    open spec fn narrow(value: ValueView) -> Option<Seq<i32>> {
        match value {
            ValueView::ListInt32(x) => Some(x),
            _ => None,
        }
    }

    proof fn lemma_narrow_widen(v: Seq<i32>) {
    }

    fn into_value(self) -> (r: Value) {
        Value::ListInt32(self)
    }

    fn from_value(value: Value) -> (r: Option<Self>) {
        match value {
            Value::ListInt32(x) => Some(x),
            _ => None,
        }
    }
}

impl Storable for String {
    open spec fn widen(v: Seq<char>) -> ValueView {
        ValueView::String(v)
    }

    open spec fn narrow(value: ValueView) -> Option<Seq<char>> {
        match value {
            ValueView::String(x) => Some(x),
            _ => None,
        }
    }

    proof fn lemma_narrow_widen(v: Seq<char>) {
    }

    fn into_value(self) -> (r: Value) {
        Value::String(self)
    }

    fn from_value(value: Value) -> (r: Option<Self>) {
        match value {
            Value::String(x) => Some(x),
            _ => None,
        }
    }
}

impl Storable for Key {
    open spec fn widen(v: KeyView) -> ValueView {
        ValueView::Key(v)
    }

    open spec fn narrow(value: ValueView) -> Option<KeyView> {
        match value {
            ValueView::Key(x) => Some(x),
            _ => None,
        }
    }

    proof fn lemma_narrow_widen(v: KeyView) {
    }

    fn into_value(self) -> (r: Value) {
        Value::Key(self)
    }

    fn from_value(value: Value) -> (r: Option<Self>) {
        match value {
            Value::Key(x) => Some(x),
            _ => None,
        }
    }
}

impl Storable for Account {
    open spec fn widen(v: AccountView) -> ValueView {
        ValueView::Account(v)
    }

    open spec fn narrow(value: ValueView) -> Option<AccountView> {
        match value {
            ValueView::Account(x) => Some(x),
            _ => None,
        }
    }

    proof fn lemma_narrow_widen(v: AccountView) {
    }

    fn into_value(self) -> (r: Value) {
        self.named_keys.ordered_names();
        Value::Account(self)
    }

    fn from_value(value: Value) -> (r: Option<Self>) {
        match value {
            Value::Account(x) => Some(x),
            _ => None,
        }
    }
}

impl Storable for Contract {
    open spec fn widen(v: ContractView) -> ValueView {
        ValueView::Contract(v)
    }

    open spec fn narrow(value: ValueView) -> Option<ContractView> {
        match value {
            ValueView::Contract(x) => Some(x),
            _ => None,
        }
    }

    proof fn lemma_narrow_widen(v: ContractView) {
    }

    fn into_value(self) -> (r: Value) {
        self.named_keys.ordered_names();
        Value::Contract(self)
    }

    fn from_value(value: Value) -> (r: Option<Self>) {
        match value {
            Value::Contract(x) => Some(x),
            _ => None,
        }
    }
}

} // verus!
