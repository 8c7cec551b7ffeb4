use asset_storage::principal::Principal;
use asset_storage::types::api_error::{ApiError, CanisterFailedError};
use asset_storage::types::user::User;
use asset_storage::users_store::{AllocationRequest, InstallRequest, UsersStore, CHUNKS_CANISTER_CYCLES};

fn user(n: u8) -> Principal {
    Principal::try_from_slice(&[n, 3]).unwrap()
}

fn unit(n: u8) -> Principal {
    Principal::try_from_slice(&[n, 0, 0, 1]).unwrap()
}

fn refusal() -> CanisterFailedError {
    CanisterFailedError { code: 4, message: "no".to_string() }
}

#[test]
fn create_user_makes_a_record_without_units() {
    let mut store = UsersStore::new(vec![0, 97]);
    let made = store.create_user(user(1), Some("ann".to_string()), 12).unwrap();
    let expected =
        User { user_id: user(1), username: Some("ann".to_string()), created_at: 12, canisters: vec![] };
    assert_eq!(made, expected);
    assert_eq!(store.get_user(user(1)), Ok(expected.clone()));
    assert_eq!(store.get_all_users(), vec![expected]);
    assert_eq!(store.get_user(user(2)), Err(ApiError::NotFound("USER_NOT_FOUND".to_string())));
}

#[test]
fn second_registration_already_exists() {
    let mut store = UsersStore::new(Vec::new());
    assert!(store.create_user(user(1), None, 1).is_ok());
    assert_eq!(
        store.create_user(user(1), Some("again".to_string()), 2),
        Err(ApiError::AlreadyExists("USER_EXISTS".to_string()))
    );
    assert_eq!(store.get_all_users().len(), 1);
    assert_eq!(store.get_user(user(1)).unwrap().username, None);
    assert!(store.create_user(user(2), None, 3).is_ok());
    assert_eq!(store.get_all_users().len(), 2);
}

#[test]
fn allocation_is_planned_for_caller_and_unit() {
    let request = UsersStore::plan_allocation(user(1), unit(0));
    assert_eq!(
        request,
        AllocationRequest { cycles: 2_000_000_000_000, controllers: vec![user(1), unit(0)] }
    );
    assert_eq!(CHUNKS_CANISTER_CYCLES, 2_000_000_000_000);
}

#[test]
fn refused_allocation_is_passed_through() {
    let mut store = UsersStore::new(vec![1, 2]);
    store.create_user(user(1), None, 1).unwrap();
    let outcome = store.after_allocation(user(1), Err(refusal()));
    assert_eq!(outcome, Err(ApiError::CanisterFailed(refusal())));
    assert_eq!(store.get_user(user(1)).unwrap().canisters, vec![]);
}

#[test]
fn failed_installation_leaves_the_record_as_it_was() {
    let mut store = UsersStore::new(vec![1, 2]);
    store.create_user(user(1), None, 1).unwrap();
    let request = store.after_allocation(user(1), Ok(unit(7))).unwrap();
    assert_eq!(request, InstallRequest { canister: unit(7), wasm: vec![1, 2], owner: user(1) });
    let outcome = store.after_installation(request, Err(refusal()));
    assert_eq!(outcome, Err(ApiError::CanisterFailed(refusal())));
    let record = store.get_user(user(1)).unwrap();
    assert_eq!(record.canisters, vec![]);
    assert_eq!(store.get_all_users().len(), 1);
}

#[test]
fn installed_units_are_appended_to_the_record() {
    let mut store = UsersStore::new(vec![5]);
    store.create_user(user(1), None, 1).unwrap();
    store.create_user(user(2), None, 2).unwrap();
    let request = store.after_allocation(user(2), Ok(unit(7))).unwrap();
    let record = store.after_installation(request, Ok(())).unwrap();
    assert_eq!(record.canisters, vec![unit(7)]);
    let request = store.after_allocation(user(2), Ok(unit(8))).unwrap();
    let record = store.after_installation(request, Ok(())).unwrap();
    assert_eq!(record.canisters, vec![unit(7), unit(8)]);
    assert_eq!(record.user_id, user(2));
    assert_eq!(record.created_at, 2);
    assert_eq!(store.get_user(user(2)), Ok(record));
    assert_eq!(store.get_user(user(1)).unwrap().canisters, vec![]);
    assert_eq!(
        store.get_all_chunk_canisters(),
        vec![(user(1), vec![]), (user(2), vec![unit(7), unit(8)])]
    );
}

#[test]
fn installation_for_an_unknown_tenant_is_not_found() {
    let mut store = UsersStore::new(vec![5]);
    let request = store.after_allocation(user(1), Ok(unit(7))).unwrap();
    assert_eq!(
        store.after_installation(request, Ok(())),
        Err(ApiError::NotFound("USER_NOT_FOUND".to_string()))
    );
    assert!(store.get_all_users().is_empty());
}

#[test]
fn a_default_directory_is_empty() {
    let store = UsersStore::default();
    assert!(store.get_all_users().is_empty());
    assert!(store.get_all_chunk_canisters().is_empty());
    assert_eq!(store.after_allocation(user(1), Ok(unit(1))).unwrap().wasm, Vec::<u8>::new());
}
