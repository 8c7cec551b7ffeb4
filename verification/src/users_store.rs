use vstd::pervasive::unreached;
use vstd::prelude::*;
use crate::principal::Principal;
use crate::types::api_error::{user_exists, user_not_found, ApiError, ApiErrorView, CanisterFailedError};
use crate::types::user::{clone_principals, principals_view, User, UserView};

verus! {

/// The cycles that a new storage unit is created with.
pub const CHUNKS_CANISTER_CYCLES: u64 = 2_000_000_000_000;

/// The tenant directory: one record per identity, in the order in which the
/// tenants registered, and the code that every new storage unit is set up
/// with.
pub struct UsersStore {
    users: Vec<User>,
    chunks_wasm: Vec<u8>,
}

/// The mathematical value of a [`UsersStore`].
pub struct UsersStoreView {
    /// The tenant records, oldest first.
    pub users: Seq<UserView>,
    /// The code that a new storage unit is set up with.
    pub chunks_wasm: Seq<u8>,
}

/// The first phase of provisioning: what to ask the allocator for.
#[derive(Debug, PartialEq, Eq)]
pub struct AllocationRequest {
    /// The cycles to create the unit with.
    pub cycles: u64,
    /// Who may control the unit: the invoking caller and the provisioning
    /// unit itself.
    pub controllers: Vec<Principal>,
}

/// The state between the two phases of provisioning: a unit was allocated
/// and waits for its code. Until the installation has succeeded the unit is
/// recorded nowhere else.
#[derive(Debug, PartialEq, Eq)]
pub struct InstallRequest {
    /// The address of the allocated unit.
    pub canister: Principal,
    /// The code to install.
    pub wasm: Vec<u8>,
    /// The tenant the unit is for, handed to the code as its argument.
    pub owner: Principal,
}

/// The error of a refused outside call, code and message passed through.
pub open spec fn canister_failed(error: CanisterFailedError) -> ApiErrorView {
    ApiErrorView::CanisterFailed { code: error.code, message: error.message@ }
}

/// `users` holds a record for `id`.
pub open spec fn has_user(users: Seq<UserView>, id: Seq<u8>) -> bool {
    exists|i: int| 0 <= i < users.len() && (#[trigger] users[i]).user_id == id
}

/// The position of a record for `id` in `users`, if there is one.
pub open spec fn user_at(users: Seq<UserView>, id: Seq<u8>) -> int {
    choose|i: int| 0 <= i < users.len() && (#[trigger] users[i]).user_id == id
}

/// A fresh record for `id`, made at time `now`, with no storage unit yet.
pub open spec fn new_user(id: Seq<u8>, username: Option<String>, now: u64) -> UserView {
    UserView {
        user_id: id,
        username: match username {
            Some(name) => Some(name@),
            None => None,
        },
        created_at: now,
        canisters: Seq::empty(),
    }
}

/// `user` with `canister` added as its newest storage unit.
pub open spec fn with_canister(user: UserView, canister: Seq<u8>) -> UserView {
    UserView { canisters: user.canisters.push(canister), ..user }
}

impl UsersStoreView {
    /// The directory's invariant: no identity has two records.
    pub open spec fn valid(self) -> bool {
        forall|i: int, j: int|
            0 <= i < j < self.users.len() ==> (#[trigger] self.users[i]).user_id != (
            #[trigger] self.users[j]).user_id
    }
}

/// The whole state of a directory as plain values, as it is written out
/// before a restart and read back after it.
#[derive(Debug, PartialEq, Eq)]
pub struct UsersSnapshot {
    /// The tenant records, oldest first.
    pub users: Vec<User>,
    /// The code that a new storage unit is set up with.
    pub chunks_wasm: Vec<u8>,
}

impl UsersSnapshot {
    /// The directory that the snapshot describes.
    pub open spec fn state(&self) -> UsersStoreView {
        UsersStoreView {
            users: self.users@.map_values(|u: User| u@),
            chunks_wasm: self.chunks_wasm@,
        }
    }

    /// The snapshot describes a directory that can exist: no identity has
    /// two records.
    pub open spec fn sound(&self) -> bool {
        self.state().valid()
    }
}

impl View for UsersStore {
    type V = UsersStoreView;

    closed spec fn view(&self) -> UsersStoreView {
        UsersStoreView {
            users: self.users@.map_values(|u: User| u@),
            chunks_wasm: self.chunks_wasm@,
        }
    }
}

impl Default for UsersStore {
    /// A directory without records and without code for new storage units.
    fn default() -> (store: UsersStore)
        ensures
            store.wf(),
            store@.users == Seq::<UserView>::empty(),
            store@.chunks_wasm == Seq::<u8>::empty(),
    {
        UsersStore::new(Vec::new())
    }
}

impl UsersStore {
    /// The directory's invariant holds; see [`UsersStoreView::valid`].
    pub open spec fn wf(&self) -> bool {
        self@.valid()
    }

    /// A directory without records that sets new storage units up with
    /// `chunks_wasm`.
    pub fn new(chunks_wasm: Vec<u8>) -> (store: UsersStore)
        ensures
            store.wf(),
            store@.users == Seq::<UserView>::empty(),
            store@.chunks_wasm == chunks_wasm@,
    {
        let store = UsersStore { users: Vec::new(), chunks_wasm };
        store
    }

    /// Where the directory holds the record of `principal`.
    fn find_user(&self, principal: &Principal) -> (r: Option<usize>)
        requires
            self.wf(),
        ensures
            r is Some <==> has_user(self@.users, principal@),
            r matches Some(i) ==> i as int == user_at(self@.users, principal@) && i < self.users@.len(),
    {
        let ghost users = self@.users;
        let mut i: usize = 0;
        while i < self.users.len()
            invariant
                self.wf(),
                users == self@.users,
                i <= self.users@.len(),
                forall|k: int| 0 <= k < i ==> (#[trigger] users[k]).user_id != principal@,
            decreases self.users@.len() - i,
        {
            if self.users[i].user_id.same(principal) {
                proof {
                    assert(users[i as int].user_id == principal@);
                }
                return Some(i);
            }
            i += 1;
        }
        None
    }

    /// All tenant records, oldest first.
    pub fn get_all_users(&self) -> (list: Vec<User>)
        ensures
            list@.map_values(|u: User| u@) == self@.users,
    {
        let mut list: Vec<User> = Vec::new();
        let mut i: usize = 0;
        while i < self.users.len()
            invariant
                i <= self.users@.len(),
                list@.len() == i,
                forall|k: int| 0 <= k < i ==> (#[trigger] list@[k])@ == self.users@[k]@,
            decreases self.users@.len() - i,
        {
            list.push(self.users[i].clone());
            i += 1;
        }
        list
    }

    /// Each tenant with the addresses of the tenant's storage units, in the
    /// order of the records.
    pub fn get_all_chunk_canisters(&self) -> (list: Vec<(Principal, Vec<Principal>)>)
        ensures
            list@.len() == self@.users.len(),
            forall|k: int|
                0 <= k < list@.len() ==> (#[trigger] list@[k]).0@ == self@.users[k].user_id
                    && principals_view(list@[k].1@) == self@.users[k].canisters,
    {
        let mut list: Vec<(Principal, Vec<Principal>)> = Vec::new();
        let mut i: usize = 0;
        while i < self.users.len()
            invariant
                i <= self.users@.len(),
                list@.len() == i,
                forall|k: int|
                    0 <= k < i ==> (#[trigger] list@[k]).0@ == self@.users[k].user_id && principals_view(
                        list@[k].1@,
                    ) == self@.users[k].canisters,
            decreases self.users@.len() - i,
        {
            let user = &self.users[i];
            list.push((user.user_id.clone(), clone_principals(&user.canisters)));
            i += 1;
        }
        list
    }

    /// The record of `principal`.
    pub fn get_user(&self, principal: Principal) -> (r: Result<User, ApiError>)
        requires
            self.wf(),
        ensures
            r is Ok <==> has_user(self@.users, principal@),
            match r {
                Ok(user) => user@ == self@.users[user_at(self@.users, principal@)],
                Err(e) => e@ == user_not_found(),
            },
    {
        match self.find_user(&principal) {
            Some(i) => Ok(self.users[i].clone()),
            None => Err(ApiError::user_not_found()),
        }
    }

    /// Registers `principal` as a tenant at time `now`, with no storage unit
    /// yet. An identity registers once.
    pub fn create_user(&mut self, principal: Principal, username: Option<String>, now: u64) -> (r:
        Result<User, ApiError>)
        requires
            old(self).wf(),
        ensures
            final(self).wf(),
            r is Ok <==> !has_user(old(self)@.users, principal@),
            match r {
                Ok(user) => {
                    &&& user@ == new_user(principal@, username, now)
                    &&& final(self)@ == (UsersStoreView {
                        users: old(self)@.users.push(user@),
                        ..old(self)@
                    })
                },
                Err(e) => e@ == user_exists() && final(self)@ == old(self)@,
            },
    {
        let ghost before = self@;
        if self.find_user(&principal).is_some() {
            return Err(ApiError::user_exists());
        }
        let user_to_add = User { user_id: principal, username, created_at: now, canisters: Vec::new() };
        let copy = user_to_add.clone();
        self.users.push(user_to_add);
        proof {
            assert(copy@.canisters =~= Seq::<Seq<u8>>::empty());
            assert(self@.users =~= before.users.push(copy@));
        }
        Ok(copy)
    }

    /// First phase of provisioning a storage unit: what to ask the
    /// allocator for on behalf of `caller`, where `unit` is the address of
    /// the provisioning unit itself.
    pub fn plan_allocation(caller: Principal, unit: Principal) -> (request: AllocationRequest)
        ensures
            request.cycles == CHUNKS_CANISTER_CYCLES,
            principals_view(request.controllers@) == seq![caller@, unit@],
    {
        let mut controllers: Vec<Principal> = Vec::new();
        controllers.push(caller);
        controllers.push(unit);
        AllocationRequest { cycles: CHUNKS_CANISTER_CYCLES, controllers }
    }

    /// Between the phases: takes the allocator's answer for `principal`.
    /// Where a unit was allocated, says what to install into it. Where the
    /// allocator refused, the refusal is the outcome. The directory stays as
    /// it is either way.
    pub fn after_allocation(
        &self,
        principal: Principal,
        allocated: Result<Principal, CanisterFailedError>,
    ) -> (r: Result<InstallRequest, ApiError>)
        ensures
            match allocated {
                Ok(canister) => r matches Ok(request) && request.canister@ == canister@ && request.wasm@
                    == self@.chunks_wasm && request.owner@ == principal@,
                Err(error) => r matches Err(e) && e@ == canister_failed(error),
            },
    {
        match allocated {
            Ok(canister) => Ok(
                InstallRequest { canister, wasm: self.chunks_wasm.clone(), owner: principal },
            ),
            Err(error) => Err(ApiError::CanisterFailed(error)),
        }
    }

    /// Second phase: takes the installer's answer for `request`. Where the
    /// code was installed and the tenant has a record, the unit becomes the
    /// newest entry of the tenant's list, and the record is handed back.
    /// Where the installer refused, the refusal is the outcome and the
    /// directory stays as it is: the allocated unit is left without code and
    /// without a record.
    pub fn after_installation(
        &mut self,
        request: InstallRequest,
        installed: Result<(), CanisterFailedError>,
    ) -> (r: Result<User, ApiError>)
        requires
            old(self).wf(),
        ensures
            final(self).wf(),
            r is Ok <==> installed is Ok && has_user(old(self)@.users, request.owner@),
            match r {
                Ok(user) => {
                    let i = user_at(old(self)@.users, request.owner@);
                    &&& user@ == with_canister(old(self)@.users[i], request.canister@)
                    &&& final(self)@ == (UsersStoreView {
                        users: old(self)@.users.update(i, user@),
                        ..old(self)@
                    })
                },
                Err(e) => {
                    &&& final(self)@ == old(self)@
                    &&& e@ == match installed {
                        Ok(_) => user_not_found(),
                        Err(error) => canister_failed(error),
                    }
                },
            },
    {
        let ghost before = self@;
        match installed {
            Ok(_) => {
                match self.find_user(&request.owner) {
                    Some(i) => {
                        self.users[i].canisters.push(request.canister);
                        let copy = self.users[i].clone();
                        proof {
                            assert(copy@.canisters =~= before.users[i as int].canisters.push(
                                request.canister@,
                            ));
                            assert(self@.users =~= before.users.update(i as int, copy@));
                        }
                        Ok(copy)
                    },
                    None => Err(ApiError::user_not_found()),
                }
            },
            Err(error) => Err(ApiError::CanisterFailed(error)),
        }
    }

    /// The whole state, to be written out before a restart. Restoring it
    /// gives a directory equal to this one.
    pub fn snapshot(&self) -> (snapshot: UsersSnapshot)
        requires
            self.wf(),
        ensures
            snapshot.sound(),
            snapshot.state() == self@,
    {
        let users = self.get_all_users();
        let snapshot = UsersSnapshot { users, chunks_wasm: self.chunks_wasm.clone() };
        snapshot
    }

    /// The directory that `snapshot` describes; `None` where it describes
    /// none, because an identity has two records.
    pub fn restore(snapshot: UsersSnapshot) -> (r: Option<UsersStore>)
        ensures
            r is Some <==> snapshot.sound(),
            r matches Some(store) ==> store.wf() && store@ == snapshot.state(),
    {
        let ghost users = snapshot.state().users;
        let mut j: usize = 0;
        while j < snapshot.users.len()
            invariant
                users == snapshot.state().users,
                j <= snapshot.users@.len(),
                forall|a: int, b: int|
                    0 <= a < b < j ==> (#[trigger] users[a]).user_id != (#[trigger] users[b]).user_id,
            decreases snapshot.users@.len() - j,
        {
            let mut i: usize = 0;
            while i < j
                invariant
                    users == snapshot.state().users,
                    i <= j < snapshot.users@.len(),
                    forall|a: int| 0 <= a < i ==> (#[trigger] users[a]).user_id != users[j as int].user_id,
                decreases j - i,
            {
                if snapshot.users[i].user_id.same(&snapshot.users[j].user_id) {
                    assert(users[i as int].user_id == users[j as int].user_id);
                    return None;
                }
                i += 1;
            }
            j += 1;
        }
        Some(UsersStore { users: snapshot.users, chunks_wasm: snapshot.chunks_wasm })
    }

    /// The directory as it comes back from a restart: written out and read
    /// back, it is equal to this one.
    pub fn reload(&self) -> (store: UsersStore)
        requires
            self.wf(),
        ensures
            store.wf(),
            store@ == self@,
    {
        match UsersStore::restore(self.snapshot()) {
            Some(store) => store,
            None => unreached(),
        }
    }
}

} // verus!
