use vstd::prelude::*;
use crate::principal::{anonymous_bytes, Principal};

verus! {

/// A reference to a token: the unit that issued it and its number there.
#[derive(Debug, PartialEq, Eq)]
pub struct Nft {
    pub principal: Principal,
    pub index: u32,
}

impl Default for Nft {
    /// Token 0 of the anonymous identity.
    fn default() -> (r: Nft)
        ensures
            r.principal@ == anonymous_bytes(),
            r.index == 0,
    {
        Nft { principal: Principal::anonymous(), index: 0 }
    }
}

impl Clone for Nft {
    fn clone(&self) -> (r: Nft)
        ensures
            r.principal@ == self.principal@,
            r.index == self.index,
    {
        Nft { principal: self.principal.clone(), index: self.index }
    }
}

} // verus!
