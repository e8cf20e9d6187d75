use contract_storage::bytesrepr::{deserialize, Error, ToBytes};
use contract_storage::key::Key;
use contract_storage::named_keys::{name_order, order_of, NamedKeys, Order};
use std::collections::BTreeMap;

fn local(byte: u8) -> Key {
    Key::Local(vec![byte])
}

#[test]
fn byte_strings_stand_in_dictionary_order() {
    assert_eq!(order_of(b"", b""), Order::Same);
    assert_eq!(order_of(b"", b"a"), Order::Before);
    assert_eq!(order_of(b"a", b""), Order::After);
    assert_eq!(order_of(b"ab", b"ab"), Order::Same);
    assert_eq!(order_of(b"ab", b"abc"), Order::Before);
    assert_eq!(order_of(b"abd", b"abc"), Order::After);
    assert_eq!(order_of(b"b", b"abc"), Order::After);
    assert_eq!(order_of(&[0x7F], &[0x80]), Order::Before);
}

#[test]
fn names_stand_in_the_order_of_their_bytes() {
    assert_eq!(name_order("apple", "apple"), Order::Same);
    assert_eq!(name_order("apple", "apricot"), Order::Before);
    assert_eq!(name_order("z", "é"), Order::Before);
    assert_eq!(name_order("b", "a"), Order::After);
}

#[test]
fn a_directory_keeps_its_names_in_order() {
    let directory = NamedKeys::new()
        .insert(String::from("m"), local(1))
        .insert(String::from("z"), local(2))
        .insert(String::from("a"), local(3))
        .insert(String::from("n"), local(4));
    assert_eq!(directory.len(), 4);
    let names: Vec<&str> = (0..4).map(|i| directory.entry(i).0.as_str()).collect();
    assert_eq!(names, vec!["a", "m", "n", "z"]);
    assert_eq!(directory.entry(0).1, &local(3));
    assert_eq!(directory.entry(3).1, &local(2));
}

#[test]
fn inserting_a_name_again_replaces_its_key() {
    let directory = NamedKeys::new()
        .insert(String::from("a"), local(1))
        .insert(String::from("b"), local(2))
        .insert(String::from("a"), local(9));
    assert_eq!(directory.len(), 2);
    assert_eq!(directory.get("a"), Some(&local(9)));
    assert_eq!(directory.get("b"), Some(&local(2)));
    assert_eq!(directory.get("c"), None);
    assert_eq!(NamedKeys::new().get("a"), None);
}

#[test]
fn one_mapping_has_one_encoding() {
    let one = NamedKeys::new()
        .insert(String::from("x"), local(1))
        .insert(String::from("y"), local(2));
    let other = NamedKeys::new()
        .insert(String::from("y"), local(2))
        .insert(String::from("x"), local(7))
        .insert(String::from("x"), local(1));
    assert_eq!(one, other);
    assert_eq!(one.to_bytes().unwrap(), other.to_bytes().unwrap());
}

#[test]
fn a_directory_round_trips() {
    let directory = NamedKeys::new()
        .insert(String::from("beta"), Key::Hash([2; 32]))
        .insert(String::from("alpha"), Key::Account([1; 32]));
    let bytes = directory.to_bytes().unwrap();
    let back: NamedKeys = deserialize(&bytes).unwrap();
    assert_eq!(back, directory);
    assert_eq!(back.clone(), directory);
    let empty: NamedKeys = deserialize(&[0, 0, 0, 0]).unwrap();
    assert_eq!(empty.len(), 0);
}

#[test]
fn names_out_of_order_are_ill_formed() {
    let entry = |name: u8| vec![1u8, 0, 0, 0, name, 3, 0, 0, 0, 0];
    let mut descending = vec![2u8, 0, 0, 0];
    descending.extend(entry(b'b'));
    descending.extend(entry(b'a'));
    assert_eq!(deserialize::<NamedKeys>(&descending).unwrap_err(), Error::Formatting);

    let mut twice = vec![2u8, 0, 0, 0];
    twice.extend(entry(b'a'));
    twice.extend(entry(b'a'));
    assert_eq!(deserialize::<NamedKeys>(&twice).unwrap_err(), Error::Formatting);

    let mut ascending = vec![2u8, 0, 0, 0];
    ascending.extend(entry(b'a'));
    ascending.extend(entry(b'b'));
    assert_eq!(deserialize::<NamedKeys>(&ascending).unwrap().len(), 2);

    let mut short = vec![2u8, 0, 0, 0];
    short.extend(entry(b'a'));
    assert_eq!(deserialize::<NamedKeys>(&short).unwrap_err(), Error::EarlyEndOfStream);
}

#[test]
fn a_directory_agrees_with_an_ordered_map() {
    let mut state: u32 = 12345;
    let mut next = move || {
        state = state.wrapping_mul(1_103_515_245).wrapping_add(12_345);
        (state >> 16) as u8
    };
    let letters = ["a", "b", "é", "z", "", "ab", "aé", "zz", "ß", "~"];
    let mut directory = NamedKeys::new();
    let mut map: BTreeMap<String, Key> = BTreeMap::new();
    for _ in 0..300 {
        let first = letters[usize::from(next()) % letters.len()];
        let second = letters[usize::from(next()) % letters.len()];
        let name = format!("{}{}", first, second);
        let key = local(next());
        directory = directory.insert(name.clone(), key.clone());
        map.insert(name, key);

        assert_eq!(directory.len(), map.len());
        for (i, (name, key)) in map.iter().enumerate() {
            assert_eq!(directory.entry(i), (name, key));
            assert_eq!(directory.get(name), Some(key));
        }
    }
    assert_eq!(directory.get("never inserted"), None);
    let bytes = directory.to_bytes().unwrap();
    assert_eq!(deserialize::<NamedKeys>(&bytes).unwrap(), directory);
}
