use contract_storage::bytesrepr::{Error, ToBytes};
use contract_storage::host::{Abort, HostBoundary};
use contract_storage::key::Key;
use contract_storage::memory_host::MemoryHost;
use contract_storage::named_keys::NamedKeys;
use contract_storage::storage::{new_turef, read, read_local, read_untyped, try_into, write_local};
use contract_storage::turef::TURef;
use contract_storage::uref::{AccessRights, URef};
use contract_storage::value::{Account, Contract, Storable, Value};
use std::collections::HashSet;

fn host() -> MemoryHost {
    MemoryHost::new(vec![0xC0, 0xDE])
}

fn round_trip<T: Storable + Clone + PartialEq + std::fmt::Debug>(first: T, second: T) {
    let mut host = host();
    let turef = new_turef(&mut host, first.clone()).unwrap();
    assert_eq!(read(&mut host, turef), Ok(Ok(Some(first))));
    assert_eq!(contract_storage::storage::write(&mut host, turef, second.clone()), Ok(()));
    assert_eq!(read(&mut host, turef), Ok(Ok(Some(second))));
}

#[test]
fn what_is_written_is_read_back() {
    let directory = NamedKeys::new().insert(String::from("k"), Key::Hash([1; 32]));
    round_trip(1i32, -7i32);
    round_trip(0u64, u64::MAX);
    round_trip(vec![1u8, 2, 3], Vec::<u8>::new());
    round_trip(vec![-1i32, 2], vec![i32::MIN]);
    round_trip(String::from("first"), String::from("zweite Fassung"));
    round_trip(Key::Account([2; 32]), Key::Local(vec![5]));
    round_trip(
        Contract::new(vec![1], NamedKeys::new()),
        Contract::new(vec![], directory.clone()),
    );
    round_trip(
        Account::new([3; 32], directory),
        Account::new([4; 32], NamedKeys::new()),
    );
    round_trip((), ());
    round_trip(Value::Int32(4), Value::String(String::from("any kind")));
}

#[test]
fn a_write_replaces_whatever_was_there() {
    let mut host = host();
    let numbers: TURef<i32> = new_turef(&mut host, 1).unwrap();
    let text: TURef<String> = TURef::new(numbers.addr(), numbers.access_rights());
    assert_eq!(
        contract_storage::storage::write(&mut host, text, String::from("now text")),
        Ok(())
    );
    assert_eq!(read(&mut host, text), Ok(Ok(Some(String::from("now text")))));
}

#[test]
fn a_value_of_another_kind_is_a_type_mismatch() {
    let mut host = host();
    let numbers: TURef<i32> = new_turef(&mut host, 1).unwrap();
    let text: TURef<String> = TURef::new(numbers.addr(), numbers.access_rights());
    assert_eq!(read(&mut host, text), Ok(Err(Error::TypeMismatch)));
    assert_eq!(read(&mut host, numbers), Ok(Ok(Some(1))));
}

#[test]
fn narrowing_keeps_absence_and_refuses_other_kinds() {
    assert_eq!(try_into::<i32>(None), Ok(None));
    assert_eq!(try_into::<i32>(Some(Value::Int32(3))), Ok(Some(3)));
    assert_eq!(try_into::<u64>(Some(Value::Int32(3))), Err(Error::TypeMismatch));
    assert_eq!(try_into::<()>(Some(Value::Unit)), Ok(Some(())));
    assert_eq!(
        try_into::<Value>(Some(Value::ByteArray(vec![1]))),
        Ok(Some(Value::ByteArray(vec![1])))
    );
    assert_eq!(
        try_into::<Vec<u8>>(Some(Value::ListInt32(vec![1]))),
        Err(Error::TypeMismatch)
    );
}

#[test]
fn bytes_that_are_no_value_are_a_decoding_error() {
    let mut host = host();
    let turef: TURef<i32> = new_turef(&mut host, 1).unwrap();
    let key = turef.key().to_bytes().unwrap();
    host.write_global(&key, &[0, 1, 2]).unwrap();
    assert_eq!(read(&mut host, turef), Ok(Err(Error::EarlyEndOfStream)));
    host.write_global(&key, &[42]).unwrap();
    assert_eq!(read(&mut host, turef), Ok(Err(Error::Formatting)));
    host.write_global(&key, &[7, 7]).unwrap();
    assert_eq!(read(&mut host, turef), Ok(Err(Error::LeftOverBytes)));
    host.write_global(&key, &[]).unwrap();
    assert_eq!(read(&mut host, turef), Ok(Ok(None)));
}

#[test]
fn an_unused_key_reads_as_nothing() {
    let mut host = host();
    assert_eq!(read_untyped(&mut host, &Key::Hash([9; 32])), Ok(Ok(None)));
    assert_eq!(read_untyped(&mut host, &Key::Account([9; 32])), Ok(Ok(None)));
    assert_eq!(read_untyped(&mut host, &Key::Local(vec![1, 2])), Ok(Ok(None)));
    assert_eq!(read_local::<MemoryHost, u64, i32>(&mut host, 5), Ok(None));
    assert_eq!(
        read_local::<MemoryHost, String, Value>(&mut host, String::from("k")),
        Ok(None)
    );
}

#[test]
fn the_local_partition_reads_back_what_was_written() {
    let mut host = host();
    assert_eq!(write_local(&mut host, String::from("k"), 5i32), Ok(()));
    assert_eq!(write_local(&mut host, 7u64, String::from("seven")), Ok(()));
    assert_eq!(read_local::<MemoryHost, String, i32>(&mut host, String::from("k")), Ok(Some(5)));
    assert_eq!(
        read_local::<MemoryHost, u64, String>(&mut host, 7),
        Ok(Some(String::from("seven")))
    );
    assert_eq!(read_local::<MemoryHost, u64, String>(&mut host, 8), Ok(None));
    assert_eq!(
        read_local::<MemoryHost, String, u64>(&mut host, String::from("k")),
        Err(Error::TypeMismatch)
    );
    assert_eq!(write_local(&mut host, String::from("k"), 6i32), Ok(()));
    assert_eq!(read_local::<MemoryHost, String, i32>(&mut host, String::from("k")), Ok(Some(6)));
}

#[test]
fn the_partitions_do_not_see_each_other() {
    let mut host = host();
    let turef: TURef<i32> = new_turef(&mut host, 11).unwrap();
    let raw = turef.addr();

    // The same 32 bytes as a local key, as a hash and as an account.
    assert_eq!(write_local(&mut host, raw, 1i32), Ok(()));
    assert_eq!(read_untyped(&mut host, &Key::Hash(raw)), Ok(Ok(None)));
    assert_eq!(read_untyped(&mut host, &Key::Account(raw)), Ok(Ok(None)));
    assert_eq!(read(&mut host, turef), Ok(Ok(Some(11))));

    // A local key whose bytes are the encoding of a global key.
    let encoded = turef.key().to_bytes().unwrap();
    assert_eq!(write_local(&mut host, encoded.clone(), 2i32), Ok(()));
    assert_eq!(read_untyped(&mut host, &Key::Local(encoded.clone())), Ok(Ok(None)));
    assert_eq!(read(&mut host, turef), Ok(Ok(Some(11))));

    // And a global write leaves the local keys alone.
    assert_eq!(contract_storage::storage::write(&mut host, turef, 12), Ok(()));
    assert_eq!(read_local::<MemoryHost, [u8; 32], i32>(&mut host, raw), Ok(Some(1)));
    assert_eq!(read_local::<MemoryHost, Vec<u8>, i32>(&mut host, encoded), Ok(Some(2)));
}

#[test]
fn minting_gives_a_new_address_every_time() {
    let mut host = host();
    let mut seen = HashSet::new();
    for i in 0..1000 {
        let turef: TURef<i32> = new_turef(&mut host, i).unwrap();
        assert_eq!(turef.access_rights(), AccessRights::ReadAddWrite);
        assert!(matches!(turef.key(), Key::URef(_)));
        assert!(seen.insert(turef.addr()));
    }
    assert_eq!(seen.len(), 1000);
}

#[test]
fn minted_slots_hold_their_seed_and_are_apart() {
    let mut host = host();
    let first: TURef<i32> = new_turef(&mut host, 1).unwrap();
    let second: TURef<i32> = new_turef(&mut host, 2).unwrap();
    assert_eq!(contract_storage::storage::write(&mut host, first, 10), Ok(()));
    assert_eq!(read(&mut host, first), Ok(Ok(Some(10))));
    assert_eq!(read(&mut host, second), Ok(Ok(Some(2))));
}

#[test]
fn the_host_hands_out_an_encoded_capability() {
    let mut host = host();
    let key = host.mint_reference(&[7]).unwrap();
    assert_eq!(key.len(), 34);
    assert_eq!(key[0], 2);
    assert_eq!(key[33], 7);
    let decoded: Key = contract_storage::bytesrepr::deserialize(&key).unwrap();
    let uref = decoded.as_uref().unwrap();
    assert_eq!(uref.access_rights(), AccessRights::ReadAddWrite);
    let turef: TURef<()> = TURef::from_uref(uref);
    assert_eq!(read(&mut host, turef), Ok(Ok(Some(()))));
    assert_eq!(
        turef.uref(),
        URef::new(turef.addr(), AccessRights::ReadAddWrite)
    );
}

#[test]
fn staging_and_materializing_are_one_handshake() {
    let mut host = host();
    let turef: TURef<Vec<u8>> = new_turef(&mut host, vec![1u8, 2, 3]).unwrap();
    let key = turef.key().to_bytes().unwrap();
    let size = host.stage_global(&key).unwrap();
    assert_eq!(size, 8);
    let mut buffer = vec![0u8; size];
    host.materialize(&mut buffer);
    assert_eq!(buffer, vec![1, 3, 0, 0, 0, 1, 2, 3]);

    host.write_local(b"k", &[9, 9]);
    let size = host.stage_local(b"k");
    assert_eq!(size, 2);
    let mut buffer = vec![0u8; size];
    host.materialize(&mut buffer);
    assert_eq!(buffer, vec![9, 9]);
    assert_eq!(host.stage_local(b"other"), 0);
    assert_eq!(host.stage_global(&[1, 2, 3]), Err(Abort));
}

/// A host that writes down which calls it gets and hands them on.
struct Recorder {
    inner: MemoryHost,
    calls: Vec<String>,
}

impl HostBoundary for Recorder {
    fn stage_global(&mut self, key: &[u8]) -> Result<usize, Abort> {
        let size = self.inner.stage_global(key);
        self.calls.push(format!("stage_global -> {:?}", size));
        size
    }

    fn stage_local(&mut self, key: &[u8]) -> usize {
        let size = self.inner.stage_local(key);
        self.calls.push(format!("stage_local -> {}", size));
        size
    }

    fn materialize(&mut self, dest: &mut Vec<u8>) {
        self.calls.push(format!("materialize {}", dest.len()));
        self.inner.materialize(dest)
    }

    fn write_global(&mut self, key: &[u8], value: &[u8]) -> Result<(), Abort> {
        self.calls.push(format!("write_global {:?}", value));
        self.inner.write_global(key, value)
    }

    fn write_local(&mut self, key: &[u8], value: &[u8]) {
        self.calls.push(format!("write_local {:?} {:?}", key, value));
        self.inner.write_local(key, value)
    }

    fn add_global(&mut self, key: &[u8], delta: &[u8]) -> Result<(), Abort> {
        self.calls.push(format!("add_global {:?}", delta));
        self.inner.add_global(key, delta)
    }

    fn register_mutable(&mut self, name: &[u8], named_keys: &[u8]) -> Result<[u8; 32], Abort> {
        self.calls.push(format!("register_mutable {:?} {:?}", name, named_keys));
        self.inner.register_mutable(name, named_keys)
    }

    fn register_immutable(&mut self, name: &[u8], named_keys: &[u8]) -> Result<[u8; 32], Abort> {
        self.calls.push(format!("register_immutable {:?} {:?}", name, named_keys));
        self.inner.register_immutable(name, named_keys)
    }

    fn mint_reference(&mut self, value: &[u8]) -> Result<Vec<u8>, Abort> {
        self.calls.push(format!("mint_reference {:?}", value));
        self.inner.mint_reference(value)
    }
}

fn recorder() -> Recorder {
    Recorder { inner: host(), calls: Vec::new() }
}

#[test]
fn a_read_is_one_staging_call_and_one_materialize() {
    let mut host = recorder();
    let turef: TURef<i32> = new_turef(&mut host, 5).unwrap();
    host.calls.clear();
    assert_eq!(read(&mut host, turef), Ok(Ok(Some(5))));
    assert_eq!(host.calls, vec!["stage_global -> Ok(5)", "materialize 5"]);

    host.calls.clear();
    assert_eq!(read_untyped(&mut host, &Key::Hash([8; 32])), Ok(Ok(None)));
    assert_eq!(host.calls, vec!["stage_global -> Ok(0)", "materialize 0"]);

    host.calls.clear();
    assert_eq!(read_local::<Recorder, u8, i32>(&mut host, 1), Ok(None));
    assert_eq!(host.calls, vec!["stage_local -> 0", "materialize 0"]);
}

#[test]
fn a_refused_read_stops_after_the_staging_call() {
    let mut host = recorder();
    let turef: TURef<i32> = new_turef(&mut host, 5).unwrap();
    host.calls.clear();
    let blind: TURef<i32> = TURef::new(turef.addr(), AccessRights::Write);
    assert_eq!(read(&mut host, blind), Err(Abort));
    assert_eq!(host.calls, vec!["stage_global -> Err(Abort)"]);
}

#[test]
fn each_accessor_makes_its_one_call_with_encoded_arguments() {
    let mut host = recorder();
    let turef: TURef<i32> = new_turef(&mut host, 5).unwrap();
    assert_eq!(host.calls, vec!["mint_reference [0, 5, 0, 0, 0]"]);

    host.calls.clear();
    assert_eq!(contract_storage::storage::write(&mut host, turef, 6), Ok(()));
    assert_eq!(contract_storage::storage::add(&mut host, turef, 7), Ok(()));
    assert_eq!(write_local(&mut host, 9u8, ()), Ok(()));
    assert_eq!(
        host.calls,
        vec![
            "write_global [0, 6, 0, 0, 0]",
            "add_global [0, 7, 0, 0, 0]",
            "write_local [9] [7]",
        ]
    );

    host.calls.clear();
    let directory = NamedKeys::new().insert(String::from("k"), Key::Local(vec![]));
    let encoded = "[1, 0, 0, 0, 1, 0, 0, 0, 107, 3, 0, 0, 0, 0]";
    contract_storage::storage::store_function(&mut host, "go", directory.clone()).unwrap();
    contract_storage::storage::store_function_at_hash(&mut host, "go", directory).unwrap();
    assert_eq!(
        host.calls,
        vec![
            format!("register_mutable [103, 111] {}", encoded),
            format!("register_immutable [103, 111] {}", encoded),
        ]
    );
}

#[test]
fn a_capability_turns_into_its_key() {
    let turef: TURef<i32> = TURef::new([4; 32], AccessRights::ReadAdd);
    let key: Key = turef.into();
    assert_eq!(key, Key::URef(URef::new([4; 32], AccessRights::ReadAdd)));
    assert_eq!(key, turef.key());
    assert_eq!(turef.clone(), turef);
    assert_eq!(turef.uref().remove_access_rights(), URef::new([4; 32], AccessRights::NoAccess));
}

#[test]
fn the_host_refuses_keys_it_cannot_read() {
    let mut host = host();
    assert_eq!(host.write_global(&[], &[7]), Err(Abort));
    assert_eq!(host.write_global(&[9, 9], &[7]), Err(Abort));
    assert_eq!(host.add_global(&[2; 34], &[7]), Err(Abort));
    let mut long = Key::Hash([1; 32]).to_bytes().unwrap();
    long.push(0);
    assert_eq!(host.stage_global(&long), Err(Abort));
}

#[test]
fn only_capabilities_can_be_written_through() {
    let mut host = host();
    for key in [Key::Hash([1; 32]), Key::Account([1; 32]), Key::Local(vec![1])] {
        let bytes = key.to_bytes().unwrap();
        assert_eq!(host.write_global(&bytes, &[7]), Err(Abort));
        assert_eq!(host.add_global(&bytes, &[7]), Err(Abort));
        assert_eq!(host.stage_global(&bytes), Ok(0));
        assert_eq!(read_untyped(&mut host, &key), Ok(Ok(None)));
    }
}

#[test]
fn a_refused_call_leaves_the_store_as_it_was() {
    let mut host = host();
    let turef: TURef<String> = new_turef(&mut host, String::from("kept")).unwrap();
    let blind: TURef<String> = TURef::new(turef.addr(), AccessRights::Read);
    assert_eq!(
        contract_storage::storage::write(&mut host, blind, String::from("lost")),
        Err(Abort)
    );
    assert_eq!(
        contract_storage::storage::add(&mut host, blind, String::from("lost")),
        Err(Abort)
    );
    assert_eq!(read(&mut host, turef), Ok(Ok(Some(String::from("kept")))));
    assert_eq!(write_local(&mut host, 1u8, 2u64), Ok(()));
    assert_eq!(read(&mut host, TURef::<String>::new(turef.addr(), AccessRights::Write)), Err(Abort));
    assert_eq!(read_local::<MemoryHost, u8, u64>(&mut host, 1), Ok(Some(2)));
}

#[test]
fn values_can_be_copied() {
    let directory = NamedKeys::new().insert(String::from("k"), Key::Local(vec![1]));
    let values = vec![
        Value::Unit,
        Value::Int32(-3),
        Value::UInt64(3),
        Value::ByteArray(vec![1, 2]),
        Value::ListInt32(vec![1, 2]),
        Value::String(String::from("s")),
        Value::Key(Key::Local(vec![3])),
        Value::Account(Account::new([1; 32], directory.clone())),
        Value::Contract(Contract::new(vec![1], directory)),
    ];
    for value in values {
        assert_eq!(value.clone(), value);
    }
}

#[test]
fn the_host_in_memory_counts_its_addresses_up() {
    let mut host = host();
    let first: TURef<i32> = new_turef(&mut host, 0).unwrap();
    let second: TURef<i32> = new_turef(&mut host, 0).unwrap();
    let third = contract_storage::storage::store_function(&mut host, "f", NamedKeys::new()).unwrap();
    let mut expected = [0u8; 32];
    assert_eq!(first.addr(), expected);
    expected[0] = 1;
    assert_eq!(second.addr(), expected);
    expected[0] = 2;
    assert_eq!(third.key(), Key::URef(URef::new(expected, AccessRights::ReadAddWrite)));
    for _ in 3..300 {
        new_turef(&mut host, ()).unwrap();
    }
    let last: TURef<()> = new_turef(&mut host, ()).unwrap();
    expected[0] = 44;
    expected[1] = 1;
    assert_eq!(last.addr(), expected);
}
