//! Authorization of requests: a request is accepted when the grid's
//! simulator says which object owner sent it.
use vstd::prelude::*;
use crate::fcgi::{lookup_param, param_lookup, pairs_view};

verus! {

/// What the caller asks to do.
#[derive(Debug, Clone, Copy, PartialEq, Eq, Structural)]
pub enum AuthorizeType {
    /// Upload terrain. Can add and update terrain data.
    UploadTerrain,
    /// Upload impostors. Can add and upload impostor data.
    UploadImpostors,
}

/// Why a request is refused.
#[derive(Debug, Clone, Copy, PartialEq, Eq, Structural)]
pub enum AuthError {
    /// The request carries no owner name, so it is not from a grid.
    NotFromGrid,
}

/// The request parameter naming the owner of the calling object.
pub open spec fn owner_param() -> Seq<u8> {
    "HTTP_X_SECONDLIFE_OWNER_NAME"@.map_values(|c: char| c as u8)
}

/// ASCII white space.
pub open spec fn is_ws(b: u8) -> bool {
    b == 32 || b == 9 || b == 10 || b == 11 || b == 12 || b == 13
}

/// `r` is `v` without its leading and trailing ASCII white space.
pub open spec fn is_trimmed(v: Seq<u8>, r: Seq<u8>) -> bool {
    exists|s: int, e: int| #![trigger v.subrange(s, e)] {
        &&& 0 <= s <= e <= v.len()
        &&& r == v.subrange(s, e)
        &&& forall|j: int| 0 <= j < s ==> is_ws(#[trigger] v[j])
        &&& forall|j: int| e <= j < v.len() ==> is_ws(#[trigger] v[j])
        &&& s < e ==> !is_ws(v[s]) && !is_ws(v[e - 1])
        &&& s == e ==> forall|j: int| 0 <= j < v.len() ==> is_ws(#[trigger] v[j])
    }
}

/// Authorizes requests.
pub struct Authorizer {}

fn owner_key() -> (r: Vec<u8>)
    ensures
        r@ == owner_param(),
{
    let r: Vec<u8> = vec![72, 84, 84, 80, 95, 88, 95, 83, 69, 67, 79, 78, 68, 76, 73, 70, 69, 95, 79, 87, 78, 69, 82, 95, 78, 65, 77, 69];
    proof {
        reveal_strlit("HTTP_X_SECONDLIFE_OWNER_NAME");
        assert(r@ =~= owner_param());
    }
    r
}

fn trim_ascii(v: &Vec<u8>) -> (r: Vec<u8>)
    ensures
        is_trimmed(v@, r@),
{
    let mut s: usize = 0;
    while s < v.len() && (v[s] == 32 || v[s] == 9 || v[s] == 10 || v[s] == 11 || v[s] == 12 || v[s] == 13)
        invariant
            0 <= s <= v@.len(),
            forall|j: int| 0 <= j < s ==> is_ws(#[trigger] v@[j]),
        decreases v@.len() - s,
    {
        s += 1;
    }
    let mut e: usize = v.len();
    while e > s && (v[e - 1] == 32 || v[e - 1] == 9 || v[e - 1] == 10 || v[e - 1] == 11 || v[e - 1] == 12 || v[e - 1] == 13)
        invariant
            s <= e <= v@.len(),
            forall|j: int| 0 <= j < s ==> is_ws(#[trigger] v@[j]),
            s < v@.len() ==> !is_ws(v@[s as int]),
            forall|j: int| e <= j < v@.len() ==> is_ws(#[trigger] v@[j]),
        decreases e - s,
    {
        e -= 1;
    }
    let mut out: Vec<u8> = Vec::new();
    let mut i = s;
    while i < e
        invariant
            s <= i <= e <= v@.len(),
            out@ == v@.subrange(s as int, i as int),
        decreases e - i,
    {
        out.push(v[i]);
        proof { assert(out@ =~= v@.subrange(s as int, i + 1)); }
        i += 1;
    }
    proof {
        if s == e {
            assert forall|j: int| 0 <= j < v@.len() implies is_ws(#[trigger] v@[j]) by {
                if j >= s { assert(e <= j); }
            }
        }
        assert(is_trimmed(v@, out@));
    }
    out
}

impl Authorizer {
    /// An external caller asks for permission. Granted, with the owner's
    /// name without surrounding white space, when the parameters name the
    /// owner of the calling object (the last such parameter wins);
    /// otherwise refused.
    pub fn authorize(auth_type: AuthorizeType, params: &Vec<(Vec<u8>, Vec<u8>)>) -> (r: Result<Vec<u8>, AuthError>)
        ensures
            param_lookup(pairs_view(params@), owner_param()) is None <==> r == Err::<Vec<u8>, AuthError>(AuthError::NotFromGrid),
            r matches Ok(name) ==> is_trimmed(param_lookup(pairs_view(params@), owner_param())->Some_0, name@),
    {
        let key = owner_key();
        match lookup_param(params, &key) {
            Some(v) => Ok(trim_ascii(&v)),
            None => Err(AuthError::NotFromGrid),
        }
    }
}

} // verus!
