use vstd::prelude::*;
use crate::principal::{anonymous_bytes, Principal};
use crate::types::api_error::{unauthorized, user_exists, ApiError};
use crate::types::user::{principals_view, User, UserView};
use crate::users_store::{has_user, new_user, UsersStore, UsersStoreView};
use crate::utils::{validate_admin, validate_anonymous};

verus! {

/// For administrators: all tenant records, oldest first.
pub fn get_users(store: &UsersStore, caller: &Principal, whitelist: &Vec<Principal>) -> (r: Result<
    Vec<User>,
    ApiError,
>)
    ensures
        r is Ok <==> principals_view(whitelist@).contains(caller@),
        match r {
            Ok(list) => list@.map_values(|u: User| u@) == store@.users,
            Err(e) => e@ == unauthorized(),
        },
{
    match validate_admin(caller, whitelist) {
        Ok(_) => Ok(store.get_all_users()),
        Err(err) => Err(err),
    }
}

/// Registers the caller as a tenant at time `now`. The anonymous caller is
/// turned away; a caller with a record already exists. The directory stays
/// as it is in both cases.
pub fn create_user(store: &mut UsersStore, caller: &Principal, username: Option<String>, now: u64) -> (r:
    Result<User, ApiError>)
    requires
        old(store).wf(),
    ensures
        final(store).wf(),
        r is Ok <==> caller@ != anonymous_bytes() && !has_user(old(store)@.users, caller@),
        match r {
            Ok(user) => {
                &&& user@ == new_user(caller@, username, now)
                &&& final(store)@ == (UsersStoreView {
                    users: old(store)@.users.push(user@),
                    ..old(store)@
                })
            },
            Err(e) => {
                &&& final(store)@ == old(store)@
                &&& e@ == if caller@ == anonymous_bytes() {
                    unauthorized()
                } else {
                    user_exists()
                }
            },
        },
{
    match validate_anonymous(caller) {
        Ok(principal) => store.create_user(principal, username, now),
        Err(err) => Err(err),
    }
}

} // verus!
