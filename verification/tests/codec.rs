use contract_storage::bytesrepr::{deserialize, str_to_bytes, Error, FromBytes, ToBytes};
use contract_storage::key::{Key, UREF_SIZE};
use contract_storage::named_keys::NamedKeys;
use contract_storage::uref::{AccessRights, URef};
use contract_storage::value::{Account, Contract, Value};

fn round_trip(value: Value) {
    let bytes = value.to_bytes().unwrap();
    let back: Value = deserialize(&bytes).unwrap();
    assert_eq!(back, value);
}

#[test]
fn integers_are_little_endian() {
    assert_eq!(7u8.to_bytes().unwrap(), vec![7]);
    assert_eq!(0x0403_0201u32.to_bytes().unwrap(), vec![1, 2, 3, 4]);
    assert_eq!((-2i32).to_bytes().unwrap(), vec![0xFE, 0xFF, 0xFF, 0xFF]);
    assert_eq!(
        0x0807_0605_0403_0201u64.to_bytes().unwrap(),
        vec![1, 2, 3, 4, 5, 6, 7, 8]
    );
}

#[test]
fn integers_decode_and_leave_the_rest() {
    let bytes = [1u8, 2, 3, 4, 9, 9];
    let (x, rest) = u32::from_bytes(&bytes).unwrap();
    assert_eq!(x, 0x0403_0201);
    assert_eq!(rest, &[9u8, 9][..]);
    let (y, rest) = i32::from_bytes(&[0xFF, 0xFF, 0xFF, 0xFF]).unwrap();
    assert_eq!(y, -1);
    assert!(rest.is_empty());
    let (z, _) = u64::from_bytes(&[1, 0, 0, 0, 0, 0, 0, 0x80]).unwrap();
    assert_eq!(z, 0x8000_0000_0000_0001);
}

#[test]
fn short_integers_end_early() {
    assert_eq!(u8::from_bytes(&[]).unwrap_err(), Error::EarlyEndOfStream);
    assert_eq!(u32::from_bytes(&[1, 2, 3]).unwrap_err(), Error::EarlyEndOfStream);
    assert_eq!(i32::from_bytes(&[1]).unwrap_err(), Error::EarlyEndOfStream);
    assert_eq!(u64::from_bytes(&[0; 7]).unwrap_err(), Error::EarlyEndOfStream);
}

#[test]
fn byte_strings_carry_their_count() {
    assert_eq!(vec![9u8, 8, 7].to_bytes().unwrap(), vec![3, 0, 0, 0, 9, 8, 7]);
    assert_eq!(Vec::<u8>::new().to_bytes().unwrap(), vec![0, 0, 0, 0]);
    let (back, rest) = Vec::<u8>::from_bytes(&[2, 0, 0, 0, 5, 6, 7]).unwrap();
    assert_eq!(back, vec![5, 6]);
    assert_eq!(rest, &[7u8][..]);
    assert_eq!(
        Vec::<u8>::from_bytes(&[3, 0, 0, 0, 5, 6]).unwrap_err(),
        Error::EarlyEndOfStream
    );
}

#[test]
fn lists_carry_their_count() {
    assert_eq!(
        vec![1i32, -1].to_bytes().unwrap(),
        vec![2, 0, 0, 0, 1, 0, 0, 0, 255, 255, 255, 255]
    );
    let (back, rest) = Vec::<i32>::from_bytes(&[1, 0, 0, 0, 3, 0, 0, 0, 4]).unwrap();
    assert_eq!(back, vec![3]);
    assert_eq!(rest, &[4u8][..]);
    assert_eq!(
        Vec::<i32>::from_bytes(&[2, 0, 0, 0, 3, 0, 0, 0]).unwrap_err(),
        Error::EarlyEndOfStream
    );
}

#[test]
fn text_is_counted_utf8() {
    assert_eq!(
        String::from("hé").to_bytes().unwrap(),
        vec![3, 0, 0, 0, b'h', 0xC3, 0xA9]
    );
    assert_eq!(str_to_bytes("ab").unwrap(), vec![2, 0, 0, 0, b'a', b'b']);
    let (back, rest) = String::from_bytes(&[3, 0, 0, 0, b'h', 0xC3, 0xA9, 1]).unwrap();
    assert_eq!(back, "hé");
    assert_eq!(rest, &[1u8][..]);
}

#[test]
fn text_that_is_not_utf8_is_ill_formed() {
    assert_eq!(
        String::from_bytes(&[2, 0, 0, 0, 0xC3, 0x28]).unwrap_err(),
        Error::Formatting
    );
    assert_eq!(
        String::from_bytes(&[1, 0, 0, 0, 0xFF]).unwrap_err(),
        Error::Formatting
    );
    assert_eq!(
        String::from_bytes(&[2, 0, 0, 0, b'a']).unwrap_err(),
        Error::EarlyEndOfStream
    );
}

#[test]
fn rights_are_a_mask() {
    let all = [
        (AccessRights::NoAccess, 0u8),
        (AccessRights::Read, 1),
        (AccessRights::Write, 2),
        (AccessRights::ReadWrite, 3),
        (AccessRights::Add, 4),
        (AccessRights::ReadAdd, 5),
        (AccessRights::AddWrite, 6),
        (AccessRights::ReadAddWrite, 7),
    ];
    for (rights, bits) in all {
        assert_eq!(rights.bits(), bits);
        assert_eq!(AccessRights::from_bits(bits), Some(rights));
        assert_eq!(rights.to_bytes().unwrap(), vec![bits]);
        assert_eq!(AccessRights::from_bytes(&[bits]).unwrap().0, rights);
        assert_eq!(rights.is_readable(), bits & 1 != 0);
        assert_eq!(rights.is_writeable(), bits & 2 != 0);
        assert_eq!(rights.is_addable(), bits & 4 != 0);
    }
    assert_eq!(AccessRights::from_bits(8), None);
    assert_eq!(AccessRights::from_bytes(&[8]).unwrap_err(), Error::Formatting);
    assert_eq!(AccessRights::from_bytes(&[]).unwrap_err(), Error::EarlyEndOfStream);
}

#[test]
fn containment_of_rights_is_the_subset_order() {
    assert!(AccessRights::ReadAddWrite.contains(AccessRights::Write));
    assert!(AccessRights::ReadWrite.contains(AccessRights::Read));
    assert!(AccessRights::Read.contains(AccessRights::NoAccess));
    assert!(!AccessRights::Read.contains(AccessRights::Write));
    assert!(!AccessRights::ReadAdd.contains(AccessRights::ReadWrite));
    assert!(!AccessRights::NoAccess.contains(AccessRights::Add));
}

#[test]
fn keys_are_a_tag_and_a_body() {
    let mut account = vec![0u8];
    account.extend_from_slice(&[1; 32]);
    assert_eq!(Key::Account([1; 32]).to_bytes().unwrap(), account);

    let mut hash = vec![1u8];
    hash.extend_from_slice(&[2; 32]);
    assert_eq!(Key::Hash([2; 32]).to_bytes().unwrap(), hash);

    let mut uref = vec![2u8];
    uref.extend_from_slice(&[3; 32]);
    uref.push(7);
    let key = Key::URef(URef::new([3; 32], AccessRights::ReadAddWrite));
    assert_eq!(key.to_bytes().unwrap(), uref);
    assert_eq!(uref.len(), UREF_SIZE);

    assert_eq!(
        Key::Local(vec![9, 8]).to_bytes().unwrap(),
        vec![3, 2, 0, 0, 0, 9, 8]
    );
}

#[test]
fn keys_round_trip() {
    let keys = vec![
        Key::Account([1; 32]),
        Key::Hash([0xAB; 32]),
        Key::URef(URef::new([3; 32], AccessRights::Read)),
        Key::URef(URef::new([3; 32], AccessRights::NoAccess)),
        Key::Local(Vec::new()),
        Key::Local(vec![1, 2, 3, 4, 5]),
    ];
    for key in keys {
        let bytes = key.to_bytes().unwrap();
        let back: Key = deserialize(&bytes).unwrap();
        assert_eq!(back, key);
    }
}

#[test]
fn ill_formed_keys_are_refused() {
    assert_eq!(deserialize::<Key>(&[]).unwrap_err(), Error::EarlyEndOfStream);
    assert_eq!(deserialize::<Key>(&[4]).unwrap_err(), Error::Formatting);
    assert_eq!(deserialize::<Key>(&[0, 1, 2]).unwrap_err(), Error::EarlyEndOfStream);
    let mut bad_rights = vec![2u8];
    bad_rights.extend_from_slice(&[3; 32]);
    bad_rights.push(9);
    assert_eq!(deserialize::<Key>(&bad_rights).unwrap_err(), Error::Formatting);
    let mut no_rights = vec![2u8];
    no_rights.extend_from_slice(&[3; 32]);
    assert_eq!(deserialize::<Key>(&no_rights).unwrap_err(), Error::EarlyEndOfStream);
    let mut long = vec![1u8];
    long.extend_from_slice(&[2; 33]);
    assert_eq!(deserialize::<Key>(&long).unwrap_err(), Error::LeftOverBytes);
}

#[test]
fn normalizing_a_key_removes_its_rights() {
    let key = Key::URef(URef::new([5; 32], AccessRights::ReadWrite));
    assert_eq!(
        key.normalize(),
        Key::URef(URef::new([5; 32], AccessRights::NoAccess))
    );
    assert_eq!(Key::Hash([5; 32]).normalize(), Key::Hash([5; 32]));
    assert_eq!(
        key.as_uref(),
        Some(URef::new([5; 32], AccessRights::ReadWrite))
    );
    assert_eq!(Key::Account([5; 32]).as_uref(), None);
}

#[test]
fn values_are_a_tag_and_a_body() {
    assert_eq!(Value::Unit.to_bytes().unwrap(), vec![7]);
    assert_eq!(Value::Int32(-2).to_bytes().unwrap(), vec![0, 0xFE, 0xFF, 0xFF, 0xFF]);
    assert_eq!(
        Value::UInt64(1).to_bytes().unwrap(),
        vec![8, 1, 0, 0, 0, 0, 0, 0, 0]
    );
    assert_eq!(
        Value::ByteArray(vec![5, 6]).to_bytes().unwrap(),
        vec![1, 2, 0, 0, 0, 5, 6]
    );
    assert_eq!(
        Value::ListInt32(vec![3]).to_bytes().unwrap(),
        vec![2, 1, 0, 0, 0, 3, 0, 0, 0]
    );
    assert_eq!(
        Value::String(String::from("hi")).to_bytes().unwrap(),
        vec![3, 2, 0, 0, 0, b'h', b'i']
    );
    assert_eq!(
        Value::Key(Key::Local(vec![1])).to_bytes().unwrap(),
        vec![6, 3, 1, 0, 0, 0, 1]
    );
}

#[test]
fn records_are_encoded_field_by_field() {
    let named_keys = NamedKeys::new().insert(String::from("k"), Key::Local(vec![4]));
    let contract = Contract::new(vec![0xC0, 0xDE], named_keys.clone());
    let mut expected = vec![5u8, 2, 0, 0, 0, 0xC0, 0xDE];
    let directory = vec![1u8, 0, 0, 0, 1, 0, 0, 0, b'k', 3, 1, 0, 0, 0, 4];
    expected.extend_from_slice(&directory);
    assert_eq!(named_keys.to_bytes().unwrap(), directory);
    assert_eq!(Value::Contract(contract).to_bytes().unwrap(), expected);

    let account = Account::new([6; 32], named_keys);
    let mut expected = vec![4u8];
    expected.extend_from_slice(&[6; 32]);
    expected.extend_from_slice(&directory);
    assert_eq!(Value::Account(account).to_bytes().unwrap(), expected);
}

#[test]
fn values_round_trip() {
    let named_keys = NamedKeys::new()
        .insert(String::from("purse"), Key::URef(URef::new([1; 32], AccessRights::ReadAdd)))
        .insert(String::from("code"), Key::Hash([2; 32]));
    round_trip(Value::Unit);
    round_trip(Value::Int32(i32::MIN));
    round_trip(Value::Int32(i32::MAX));
    round_trip(Value::UInt64(u64::MAX));
    round_trip(Value::ByteArray(vec![]));
    round_trip(Value::ByteArray(vec![0, 255, 7]));
    round_trip(Value::ListInt32(vec![0, -1, i32::MAX]));
    round_trip(Value::String(String::new()));
    round_trip(Value::String(String::from("grüß dich, 世界")));
    round_trip(Value::Key(Key::Account([9; 32])));
    round_trip(Value::Account(Account::new([4; 32], named_keys.clone())));
    round_trip(Value::Contract(Contract::new(vec![1, 2, 3], named_keys)));
    round_trip(Value::Contract(Contract::new(vec![], NamedKeys::new())));
}

#[test]
fn ill_formed_values_are_refused() {
    assert_eq!(deserialize::<Value>(&[]).unwrap_err(), Error::EarlyEndOfStream);
    assert_eq!(deserialize::<Value>(&[9]).unwrap_err(), Error::Formatting);
    assert_eq!(deserialize::<Value>(&[7, 0]).unwrap_err(), Error::LeftOverBytes);
    assert_eq!(deserialize::<Value>(&[0, 1, 2]).unwrap_err(), Error::EarlyEndOfStream);
    assert_eq!(
        deserialize::<Value>(&[3, 1, 0, 0, 0, 0x80]).unwrap_err(),
        Error::Formatting
    );
    assert_eq!(deserialize::<Value>(&[6, 7]).unwrap_err(), Error::Formatting);
}

#[test]
fn decoding_hands_back_what_follows_the_value() {
    let (value, rest) = Value::from_bytes(&[7, 1, 2]).unwrap();
    assert_eq!(value, Value::Unit);
    assert_eq!(rest, &[1u8, 2][..]);
    let (key, rest) = Key::from_bytes(&[3, 0, 0, 0, 0, 5]).unwrap();
    assert_eq!(key, Key::Local(vec![]));
    assert_eq!(rest, &[5u8][..]);
    let (uref, rest) = URef::from_bytes(&[1; 34]).unwrap();
    assert_eq!(uref, URef::new([1; 32], AccessRights::Read));
    assert_eq!(rest, &[1u8][..]);
}
