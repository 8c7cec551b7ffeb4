use vstd::prelude::*;
use crate::principal::Principal;

verus! {

/// A tenant record: who the tenant is, the name they chose, when the record
/// was made, and the storage units provisioned for them, oldest first.
#[derive(Debug, PartialEq, Eq)]
pub struct User {
    pub user_id: Principal,
    pub username: Option<String>,
    pub created_at: u64,
    pub canisters: Vec<Principal>,
}

/// The mathematical value of a [`User`].
pub struct UserView {
    pub user_id: Seq<u8>,
    pub username: Option<Seq<char>>,
    pub created_at: u64,
    pub canisters: Seq<Seq<u8>>,
}

/// The byte strings of a list of identities.
pub open spec fn principals_view(list: Seq<Principal>) -> Seq<Seq<u8>> {
    list.map_values(|p: Principal| p@)
}

impl View for User {
    type V = UserView;

    open spec fn view(&self) -> UserView {
        UserView {
            user_id: self.user_id@,
            username: match self.username {
                Some(name) => Some(name@),
                None => None,
            },
            created_at: self.created_at,
            canisters: principals_view(self.canisters@),
        }
    }
}

/// Copies a list of identities.
pub fn clone_principals(list: &Vec<Principal>) -> (r: Vec<Principal>)
    ensures
        principals_view(r@) == principals_view(list@),
{
    let mut copy: Vec<Principal> = Vec::new();
    let mut i: usize = 0;
    while i < list.len()
        invariant
            i <= list@.len(),
            copy@.len() == i,
            forall|j: int| 0 <= j < i ==> copy@[j]@ == list@[j]@,
        decreases list@.len() - i,
    {
        copy.push(list[i].clone());
        i += 1;
    }
    copy
}

impl Clone for User {
    fn clone(&self) -> (r: User)
        ensures
            r@ == self@,
    {
        User {
            user_id: self.user_id.clone(),
            username: match &self.username {
                Some(name) => Some(name.clone()),
                None => None,
            },
            created_at: self.created_at,
            canisters: clone_principals(&self.canisters),
        }
    }
}

} // verus!
