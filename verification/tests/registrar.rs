use contract_storage::host::{Abort, HostBoundary};
use contract_storage::key::Key;
use contract_storage::memory_host::MemoryHost;
use contract_storage::named_keys::NamedKeys;
use contract_storage::storage::{read, read_untyped, store_function, store_function_at_hash};
use contract_storage::turef::ContractRef;
use contract_storage::uref::AccessRights;
use contract_storage::value::{Contract, Value};

fn directory() -> NamedKeys {
    NamedKeys::new()
        .insert(String::from("counter"), Key::Hash([1; 32]))
        .insert(String::from("owner"), Key::Account([2; 32]))
}

#[test]
fn a_mutable_registration_is_behind_a_full_capability() {
    let mut host = MemoryHost::new(vec![0xC0, 0xDE]);
    let contract = store_function(&mut host, "entry", directory()).unwrap();
    let turef = match contract {
        ContractRef::URef(turef) => turef,
        ContractRef::Hash(_) => panic!("a mutable registration gives a capability"),
    };
    assert_eq!(turef.access_rights(), AccessRights::ReadAddWrite);
    assert_eq!(contract.key(), turef.key());
    assert_eq!(
        read(&mut host, turef),
        Ok(Ok(Some(Contract::new(vec![0xC0, 0xDE], directory()))))
    );
    assert_eq!(
        contract_storage::storage::write(&mut host, turef, Contract::new(vec![], directory())),
        Ok(())
    );
}

#[test]
fn mutable_registrations_differ_every_time() {
    let mut host = MemoryHost::new(vec![1, 2, 3]);
    let first = store_function(&mut host, "entry", directory()).unwrap();
    let second = store_function(&mut host, "entry", directory()).unwrap();
    let third = store_function(&mut host, "entry", directory()).unwrap();
    assert_ne!(first, second);
    assert_ne!(second, third);
    assert_ne!(first, third);
}

#[test]
fn an_immutable_registration_is_found_by_its_content() {
    let mut host = MemoryHost::new(vec![0xC0, 0xDE]);
    let contract = store_function_at_hash(&mut host, "entry", directory()).unwrap();
    let addr = match contract {
        ContractRef::Hash(addr) => addr,
        ContractRef::URef(_) => panic!("an immutable registration gives an address"),
    };
    assert_eq!(contract.key(), Key::Hash(addr));
    assert_eq!(
        read_untyped(&mut host, &Key::Hash(addr)),
        Ok(Ok(Some(Value::Contract(Contract::new(vec![0xC0, 0xDE], directory())))))
    );
}

#[test]
fn immutable_registrations_of_one_content_meet() {
    let mut host = MemoryHost::new(vec![0xC0, 0xDE]);
    let first = store_function_at_hash(&mut host, "entry", directory()).unwrap();
    let second = store_function_at_hash(&mut host, "entry", directory()).unwrap();
    assert_eq!(first, second);

    let mut elsewhere = MemoryHost::new(vec![0xC0, 0xDE]);
    elsewhere.write_local(b"noise", &[1]);
    let third = store_function_at_hash(&mut elsewhere, "entry", directory()).unwrap();
    assert_eq!(first, third);
}

#[test]
fn the_immutable_address_is_a_digest_of_the_content() {
    let mut host = MemoryHost::new(vec![2]);
    let contract = store_function_at_hash(&mut host, "a", NamedKeys::new()).unwrap();
    // From a state of zeros: the code byte 2 lands in place 0, then the name
    // byte 'a' is mixed into place 0, then the four bytes of the count of an
    // empty directory are mixed into places 0 to 3.
    let mut expected = [0u8; 32];
    let after_name = (2u32 * 31 + u32::from(b'a')) % 256;
    expected[0] = ((after_name * 31) % 256) as u8;
    assert_eq!(contract, ContractRef::Hash(expected));
}

#[test]
fn immutable_registrations_of_other_content_part() {
    let mut host = MemoryHost::new(vec![0xC0, 0xDE]);
    let base = store_function_at_hash(&mut host, "entry", directory()).unwrap();
    let other_name = store_function_at_hash(&mut host, "other", directory()).unwrap();
    let other_keys = store_function_at_hash(&mut host, "entry", NamedKeys::new()).unwrap();
    let mut other_host = MemoryHost::new(vec![0xC0, 0xDF]);
    let other_code = store_function_at_hash(&mut other_host, "entry", directory()).unwrap();
    assert_ne!(base, other_name);
    assert_ne!(base, other_keys);
    assert_ne!(base, other_code);
}

#[test]
fn the_host_refuses_a_directory_that_does_not_decode() {
    let mut host = MemoryHost::new(vec![1]);
    assert_eq!(host.register_mutable(b"entry", &[1, 0, 0, 0]), Err(Abort));
    assert_eq!(host.register_immutable(b"entry", &[0, 0, 0, 0, 9]), Err(Abort));
    assert!(host.register_immutable(b"entry", &[0, 0, 0, 0]).is_ok());
    assert!(host.register_mutable(b"entry", &[0, 0, 0, 0]).is_ok());
}

#[test]
fn the_order_of_filling_a_directory_does_not_change_the_address() {
    let one_way = NamedKeys::new()
        .insert(String::from("a"), Key::Hash([1; 32]))
        .insert(String::from("b"), Key::Hash([2; 32]));
    let other_way = NamedKeys::new()
        .insert(String::from("b"), Key::Hash([9; 32]))
        .insert(String::from("a"), Key::Hash([1; 32]))
        .insert(String::from("b"), Key::Hash([2; 32]));
    let mut host = MemoryHost::new(vec![7]);
    let first = store_function_at_hash(&mut host, "entry", one_way).unwrap();
    let second = store_function_at_hash(&mut host, "entry", other_way).unwrap();
    assert_eq!(first, second);
}

#[test]
fn a_registered_capability_is_held_with_all_rights() {
    let mut host = MemoryHost::new(vec![7]);
    let contract = store_function(&mut host, "entry", NamedKeys::new()).unwrap();
    let key = contract.key();
    let uref = key.as_uref().unwrap();
    assert!(host.restrict(uref));
    assert_eq!(uref.access_rights(), AccessRights::ReadAddWrite);
    assert!(uref.is_readable() && uref.is_writeable() && uref.is_addable());
    assert_eq!(
        read_untyped(&mut host, &key),
        Ok(Ok(Some(Value::Contract(Contract::new(vec![7], NamedKeys::new())))))
    );
    let copy = contract;
    assert_eq!(copy.clone(), contract);
}
