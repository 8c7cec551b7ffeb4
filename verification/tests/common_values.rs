use asset_storage::principal::{Principal, MAX_PRINCIPAL_LEN};
use asset_storage::types::api_error::ApiError;
use asset_storage::types::nft::Nft;
use asset_storage::utils::{
    get_heap_memory_size, validate_admin, validate_anonymous, validate_anonymous_and_admin,
    WASM_PAGE_SIZE,
};

fn id(bytes: &[u8]) -> Principal {
    Principal::try_from_slice(bytes).unwrap()
}

fn unauthorized() -> ApiError {
    ApiError::Unauthorized("UNAUTHORIZED".to_string())
}

#[test]
fn principal_keeps_its_bytes() {
    let p = id(&[1, 2, 3]);
    assert_eq!(p.as_slice(), &[1, 2, 3]);
    assert_eq!(p.clone(), p);
    assert!(p.same(&id(&[1, 2, 3])));
    assert!(!p.same(&id(&[1, 2])));
    assert!(!p.same(&id(&[1, 2, 4])));
}

#[test]
fn principal_holds_at_most_29_bytes() {
    assert_eq!(MAX_PRINCIPAL_LEN, 29);
    assert!(Principal::try_from_slice(&[7u8; 29]).is_some());
    assert!(Principal::try_from_slice(&[7u8; 30]).is_none());
    assert!(Principal::try_from_slice(&[]).is_some());
}

#[test]
fn anonymous_is_the_single_byte_four() {
    let anon = Principal::anonymous();
    assert_eq!(anon.as_slice(), &[4]);
    assert!(anon.same(&id(&[4])));
    assert!(!anon.same(&id(&[4, 0])));
    assert!(!anon.same(&id(&[])));
}

#[test]
fn anonymous_agrees_with_candid() {
    let theirs = candid::Principal::anonymous();
    assert_eq!(Principal::anonymous().as_slice(), theirs.as_slice());
    let parsed = candid::Principal::from_text("2vxsx-fae").unwrap();
    assert_eq!(Principal::anonymous().as_slice(), parsed.as_slice());
}

#[test]
fn principal_round_trips_through_candid() {
    let theirs = candid::Principal::from_text("aaaaa-aa").unwrap();
    let ours = Principal::try_from_slice(theirs.as_slice()).unwrap();
    assert_eq!(candid::Principal::from_slice(ours.as_slice()), theirs);
}

#[test]
fn validate_anonymous_rejects_only_the_anonymous_identity() {
    assert_eq!(validate_anonymous(&Principal::anonymous()), Err(unauthorized()));
    assert_eq!(validate_anonymous(&id(&[4])), Err(unauthorized()));
    assert_eq!(validate_anonymous(&id(&[5])), Ok(id(&[5])));
    assert_eq!(validate_anonymous(&id(&[])), Ok(id(&[])));
    assert_eq!(validate_anonymous(&id(&[4, 4])), Ok(id(&[4, 4])));
}

#[test]
fn validate_admin_accepts_only_listed_identities() {
    let admins = vec![id(&[1]), id(&[2, 2])];
    assert_eq!(validate_admin(&id(&[1]), &admins), Ok(id(&[1])));
    assert_eq!(validate_admin(&id(&[2, 2]), &admins), Ok(id(&[2, 2])));
    assert_eq!(validate_admin(&id(&[2]), &admins), Err(unauthorized()));
    assert_eq!(validate_admin(&id(&[3]), &admins), Err(unauthorized()));
    assert_eq!(validate_admin(&id(&[1]), &Vec::new()), Err(unauthorized()));
}

#[test]
fn validate_both_needs_both() {
    let admins = vec![id(&[1]), Principal::anonymous()];
    assert_eq!(validate_anonymous_and_admin(&id(&[1]), &admins), Ok(id(&[1])));
    assert_eq!(validate_anonymous_and_admin(&Principal::anonymous(), &admins), Err(unauthorized()));
    assert_eq!(validate_anonymous_and_admin(&id(&[9]), &admins), Err(unauthorized()));
}

#[test]
fn heap_size_is_pages_times_page_size() {
    assert_eq!(WASM_PAGE_SIZE, 65536);
    assert_eq!(get_heap_memory_size(0), 0);
    assert_eq!(get_heap_memory_size(1), 65536);
    assert_eq!(get_heap_memory_size(3), 196608);
    assert_eq!(get_heap_memory_size(u32::MAX), 4294967295u64 * 65536);
}

#[test]
fn default_nft_is_token_zero_of_anonymous() {
    let nft = Nft::default();
    assert_eq!(nft.principal.as_slice(), &[4]);
    assert_eq!(nft.index, 0);
    assert_eq!(nft.clone(), nft);
}

#[test]
fn api_errors_carry_their_messages() {
    assert_eq!(ApiError::unauthorized(), unauthorized());
    assert_eq!(ApiError::asset_not_found(), ApiError::NotFound("ASSET_NOT_FOUND".to_string()));
    assert_eq!(ApiError::chunks_not_found(), ApiError::NotFound("CHUNKS_NOT_FOUND".to_string()));
    assert_eq!(ApiError::user_not_found(), ApiError::NotFound("USER_NOT_FOUND".to_string()));
    assert_eq!(ApiError::user_exists(), ApiError::AlreadyExists("USER_EXISTS".to_string()));
    let failed = ApiError::canister_failed(5, "out of cycles".to_string());
    assert_eq!(failed.clone(), failed);
    match failed {
        ApiError::CanisterFailed(e) => {
            assert_eq!(e.code, 5);
            assert_eq!(e.message, "out of cycles");
        }
        _ => panic!("wrong variant"),
    }
}
