use vstd::prelude::*;

verus! {

/// Largest number of bytes an identity token may hold.
pub const MAX_PRINCIPAL_LEN: usize = 29;

/// An opaque caller-identity token: a byte string of at most
/// [`MAX_PRINCIPAL_LEN`] bytes. Two tokens denote the same caller exactly
/// when their bytes agree.
#[derive(Debug, PartialEq, Eq, Hash)]
pub struct Principal {
    bytes: Vec<u8>,
}

impl View for Principal {
    type V = Seq<u8>;

    closed spec fn view(&self) -> Seq<u8> {
        self.bytes@
    }
}

/// The bytes of the well-known anonymous identity.
pub open spec fn anonymous_bytes() -> Seq<u8> {
    seq![4u8]
}

/// Calls `candid::Principal::anonymous` and hands out, through `as_slice`,
/// the significant bytes of the identity it builds. The contract claims that
/// they are the single byte 4, the tag of the anonymous identity.
#[verifier::external_body]
fn anonymous_principal_bytes() -> (bytes: Vec<u8>)
    ensures
        bytes@ == anonymous_bytes(),
{
    candid::Principal::anonymous().as_slice().to_vec()
}

impl Principal {
    #[verifier::type_invariant]
    spec fn bounded(&self) -> bool {
        self.bytes@.len() <= MAX_PRINCIPAL_LEN
    }

    /// Builds the identity with the given bytes; `None` when there are more
    /// than [`MAX_PRINCIPAL_LEN`] of them.
    pub fn try_from_slice(bytes: &[u8]) -> (r: Option<Principal>)
        ensures
            r is Some <==> bytes@.len() <= MAX_PRINCIPAL_LEN,
            r matches Some(p) ==> p@ == bytes@,
    {
        if bytes.len() > MAX_PRINCIPAL_LEN {
            return None;
        }
        let mut copy: Vec<u8> = Vec::new();
        let mut i: usize = 0;
        while i < bytes.len()
            invariant
                i <= bytes@.len(),
                copy@ == bytes@.subrange(0, i as int),
            decreases bytes@.len() - i,
        {
            copy.push(bytes[i]);
            i += 1;
        }
        Some(Principal { bytes: copy })
    }

    /// The anonymous identity, which stands for a caller that has not
    /// authenticated.
    pub fn anonymous() -> (r: Principal)
        ensures
            r@ == anonymous_bytes(),
    {
        Principal { bytes: anonymous_principal_bytes() }
    }

    /// The bytes of this identity.
    pub fn as_slice(&self) -> (r: &[u8])
        ensures
            r@ == self@,
            r@.len() <= MAX_PRINCIPAL_LEN,
    {
        proof {
            use_type_invariant(self);
        }
        self.bytes.as_slice()
    }

    /// Whether two tokens denote the same caller.
    pub fn same(&self, other: &Principal) -> (r: bool)
        ensures
            r == (self@ == other@),
    {
        if self.bytes.len() != other.bytes.len() {
            return false;
        }
        let mut i: usize = 0;
        while i < self.bytes.len()
            invariant
                i <= self.bytes@.len(),
                self.bytes@.len() == other.bytes@.len(),
                forall|j: int| 0 <= j < i ==> self.bytes@[j] == other.bytes@[j],
            decreases self.bytes@.len() - i,
        {
            if self.bytes[i] != other.bytes[i] {
                return false;
            }
            i += 1;
        }
        assert(self.bytes@ =~= other.bytes@);
        true
    }
}

impl Clone for Principal {
    fn clone(&self) -> (r: Principal)
        ensures
            r@ == self@,
    {
        proof {
            use_type_invariant(self);
        }
        let mut copy: Vec<u8> = Vec::new();
        let mut i: usize = 0;
        while i < self.bytes.len()
            invariant
                i <= self.bytes@.len(),
                copy@ == self.bytes@.subrange(0, i as int),
            decreases self.bytes@.len() - i,
        {
            copy.push(self.bytes[i]);
            i += 1;
        }
        Principal { bytes: copy }
    }
}

} // verus!
