use contract_storage::bytesrepr::ToBytes;
use contract_storage::host::{Abort, HostBoundary};
use contract_storage::memory_host::MemoryHost;
use contract_storage::storage::{new_turef, read};
use contract_storage::turef::TURef;
use contract_storage::uref::{AccessRights, URef};

fn with_rights(turef: TURef<i32>, rights: AccessRights) -> TURef<i32> {
    TURef::new(turef.addr(), rights)
}

const ALL: [AccessRights; 8] = [
    AccessRights::NoAccess,
    AccessRights::Read,
    AccessRights::Write,
    AccessRights::ReadWrite,
    AccessRights::Add,
    AccessRights::ReadAdd,
    AccessRights::AddWrite,
    AccessRights::ReadAddWrite,
];

#[test]
fn full_rights_permit_everything() {
    let mut host = MemoryHost::new(vec![]);
    let turef: TURef<i32> = new_turef(&mut host, 0).unwrap();
    assert_eq!(turef.access_rights(), AccessRights::ReadAddWrite);
    assert_eq!(read(&mut host, turef), Ok(Ok(Some(0))));
    assert_eq!(contract_storage::storage::write(&mut host, turef, 3), Ok(()));
    assert_eq!(contract_storage::storage::add(&mut host, turef, 4), Ok(()));
    assert_eq!(read(&mut host, turef), Ok(Ok(Some(7))));
}

#[test]
fn each_operation_needs_its_right() {
    for rights in ALL {
        let mut host = MemoryHost::new(vec![]);
        let full: TURef<i32> = new_turef(&mut host, 1).unwrap();
        let held = with_rights(full, rights);

        let got = read(&mut host, held);
        if rights.is_readable() {
            assert_eq!(got, Ok(Ok(Some(1))));
        } else {
            assert_eq!(got, Err(Abort));
        }

        let wrote = contract_storage::storage::write(&mut host, held, 5);
        if rights.is_writeable() {
            assert_eq!(wrote, Ok(()));
            assert_eq!(read(&mut host, full), Ok(Ok(Some(5))));
        } else {
            assert_eq!(wrote, Err(Abort));
            assert_eq!(read(&mut host, full), Ok(Ok(Some(1))));
        }

        let before = read(&mut host, full).unwrap().unwrap().unwrap();
        let added = contract_storage::storage::add(&mut host, held, 10);
        if rights.is_addable() {
            assert_eq!(added, Ok(()));
            assert_eq!(read(&mut host, full), Ok(Ok(Some(before + 10))));
        } else {
            assert_eq!(added, Err(Abort));
            assert_eq!(read(&mut host, full), Ok(Ok(Some(before))));
        }
    }
}

#[test]
fn rights_belong_to_the_instance_not_the_address() {
    let mut host = MemoryHost::new(vec![]);
    let full: TURef<i32> = new_turef(&mut host, 1).unwrap();
    let reader = with_rights(full, AccessRights::Read);
    let writer = with_rights(full, AccessRights::Write);
    assert_eq!(contract_storage::storage::write(&mut host, writer, 8), Ok(()));
    assert_eq!(read(&mut host, writer), Err(Abort));
    assert_eq!(read(&mut host, reader), Ok(Ok(Some(8))));
    assert_eq!(contract_storage::storage::write(&mut host, reader, 9), Err(Abort));
    assert_eq!(read(&mut host, reader), Ok(Ok(Some(8))));
}

#[test]
fn adding_sums_numbers() {
    let mut host = MemoryHost::new(vec![]);
    let turef: TURef<i32> = new_turef(&mut host, 100).unwrap();
    assert_eq!(contract_storage::storage::write(&mut host, turef, 0), Ok(()));
    assert_eq!(contract_storage::storage::add(&mut host, turef, 5), Ok(()));
    assert_eq!(contract_storage::storage::add(&mut host, turef, 7), Ok(()));
    assert_eq!(read(&mut host, turef), Ok(Ok(Some(12))));

    let big: TURef<u64> = new_turef(&mut host, 0u64).unwrap();
    assert_eq!(contract_storage::storage::add(&mut host, big, 5), Ok(()));
    assert_eq!(contract_storage::storage::add(&mut host, big, 7), Ok(()));
    assert_eq!(read(&mut host, big), Ok(Ok(Some(12))));
}

#[test]
fn sums_wrap_around() {
    let mut host = MemoryHost::new(vec![]);
    let turef: TURef<i32> = new_turef(&mut host, i32::MAX).unwrap();
    assert_eq!(contract_storage::storage::add(&mut host, turef, 1), Ok(()));
    assert_eq!(read(&mut host, turef), Ok(Ok(Some(i32::MIN))));
    assert_eq!(contract_storage::storage::add(&mut host, turef, -1), Ok(()));
    assert_eq!(read(&mut host, turef), Ok(Ok(Some(i32::MAX))));

    let big: TURef<u64> = new_turef(&mut host, u64::MAX).unwrap();
    assert_eq!(contract_storage::storage::add(&mut host, big, 2), Ok(()));
    assert_eq!(read(&mut host, big), Ok(Ok(Some(1))));
}

#[test]
fn adding_to_an_empty_slot_stores_the_value() {
    let mut host = MemoryHost::new(vec![]);
    let number: TURef<i32> = new_turef(&mut host, 1).unwrap();
    let key = number.key().to_bytes().unwrap();
    host.write_global(&key, &[]).unwrap();
    assert_eq!(read(&mut host, number), Ok(Ok(None)));
    assert_eq!(contract_storage::storage::add(&mut host, number, 5), Ok(()));
    assert_eq!(read(&mut host, number), Ok(Ok(Some(5))));

    let text: TURef<String> = new_turef(&mut host, String::new()).unwrap();
    let key = text.key().to_bytes().unwrap();
    host.write_global(&key, &[]).unwrap();
    assert_eq!(
        contract_storage::storage::add(&mut host, text, String::from("seed")),
        Ok(())
    );
    assert_eq!(read(&mut host, text), Ok(Ok(Some(String::from("seed")))));
}

#[test]
fn a_capability_the_host_never_made_opens_nothing() {
    let mut host = MemoryHost::new(vec![]);
    let minted: TURef<i32> = new_turef(&mut host, 1).unwrap();
    let mut elsewhere = minted.addr();
    elsewhere[31] ^= 1;
    for rights in ALL {
        let forged: TURef<i32> = TURef::new(elsewhere, rights);
        assert_eq!(read(&mut host, forged), Err(Abort));
        assert_eq!(contract_storage::storage::write(&mut host, forged, 2), Err(Abort));
        assert_eq!(contract_storage::storage::add(&mut host, forged, 2), Err(Abort));
    }
    let before_any_mint: TURef<i32> = TURef::new([0; 32], AccessRights::ReadAddWrite);
    let mut fresh = MemoryHost::new(vec![]);
    assert_eq!(read(&mut fresh, before_any_mint), Err(Abort));
    assert_eq!(read(&mut host, minted), Ok(Ok(Some(1))));
}

#[test]
fn rights_cannot_be_escalated_locally() {
    let mut host = MemoryHost::new(vec![]);
    let full: TURef<i32> = new_turef(&mut host, 1).unwrap();
    let read_only = URef::new(full.addr(), AccessRights::Read);

    // The host leaves the context with the right to read only.
    assert!(host.restrict(read_only));
    let reader: TURef<i32> = TURef::from_uref(read_only);
    assert_eq!(read(&mut host, reader), Ok(Ok(Some(1))));
    assert_eq!(contract_storage::storage::write(&mut host, reader, 2), Err(Abort));

    // Writing the missing rights into the capability does not bring them back.
    assert_eq!(read(&mut host, full), Err(Abort));
    assert_eq!(contract_storage::storage::write(&mut host, full, 2), Err(Abort));
    assert_eq!(contract_storage::storage::add(&mut host, full, 2), Err(Abort));
    let writer = with_rights(full, AccessRights::Write);
    assert_eq!(contract_storage::storage::write(&mut host, writer, 2), Err(Abort));
    let read_add = with_rights(full, AccessRights::ReadAdd);
    assert_eq!(read(&mut host, read_add), Err(Abort));
    assert_eq!(read(&mut host, reader), Ok(Ok(Some(1))));

    // Nor does asking the host for more than the context holds.
    assert!(!host.restrict(URef::new(full.addr(), AccessRights::ReadWrite)));
    assert!(!host.restrict(URef::new([9; 32], AccessRights::NoAccess)));
    assert_eq!(contract_storage::storage::write(&mut host, full, 2), Err(Abort));

    // Fewer rights can always be presented.
    let nothing = with_rights(full, AccessRights::NoAccess);
    assert_eq!(read(&mut host, nothing), Err(Abort));
    assert!(host.restrict(URef::new(full.addr(), AccessRights::NoAccess)));
    assert_eq!(read(&mut host, reader), Err(Abort));
}

#[test]
fn restricting_one_capability_leaves_the_others() {
    let mut host = MemoryHost::new(vec![]);
    let first: TURef<i32> = new_turef(&mut host, 1).unwrap();
    let second: TURef<i32> = new_turef(&mut host, 2).unwrap();
    assert!(host.restrict(URef::new(first.addr(), AccessRights::Add)));
    assert_eq!(read(&mut host, first), Err(Abort));
    assert_eq!(
        contract_storage::storage::add(&mut host, with_rights(first, AccessRights::Add), 4),
        Ok(())
    );
    assert_eq!(read(&mut host, second), Ok(Ok(Some(2))));
    assert_eq!(contract_storage::storage::write(&mut host, second, 3), Ok(()));
    let third: TURef<i32> = new_turef(&mut host, 3).unwrap();
    assert_eq!(third.access_rights(), AccessRights::ReadAddWrite);
    assert_eq!(read(&mut host, third), Ok(Ok(Some(3))));
}

#[test]
fn values_that_cannot_be_merged_end_the_invocation() {
    let mut host = MemoryHost::new(vec![]);
    let number: TURef<i32> = new_turef(&mut host, 1).unwrap();
    let as_u64: TURef<u64> = TURef::new(number.addr(), AccessRights::ReadAddWrite);
    assert_eq!(contract_storage::storage::add(&mut host, as_u64, 1u64), Err(Abort));
    assert_eq!(read(&mut host, number), Ok(Ok(Some(1))));

    let text: TURef<String> = new_turef(&mut host, String::from("a")).unwrap();
    assert_eq!(
        contract_storage::storage::add(&mut host, text, String::from("b")),
        Err(Abort)
    );
    assert_eq!(read(&mut host, text), Ok(Ok(Some(String::from("a")))));
}
