//! How secret keys enter and leave the tables.
//!
//! The wrapping scheme is a pair of functions that the caller supplies. Nothing is assumed of
//! them: the contracts say which bytes were handed to which of them, and what was done with
//! what they gave back.
use vstd::prelude::*;

verus! {

/// `wrap` takes any byte string.
pub open spec fn can_wrap<W: Fn(&[u8]) -> Vec<u8>>(wrap: W) -> bool {
    forall|b: &[u8]| call_requires(wrap, (b,))
}

/// `wrap` can turn `plain` into `stored`.
pub open spec fn wraps_to<W: Fn(&[u8]) -> Vec<u8>>(
    wrap: W,
    plain: Seq<u8>,
    stored: Seq<u8>,
) -> bool {
    exists|b: &[u8], v: Vec<u8>|
        b@ == plain && v@ == stored && #[trigger] call_ensures(wrap, (b,), v)
}

/// `unwrap` takes any byte string.
pub open spec fn can_unwrap<U: Fn(&[u8]) -> Result<Vec<u8>, String>>(unwrap: U) -> bool {
    forall|b: &[u8]| call_requires(unwrap, (b,))
}

/// `unwrap` can turn `stored` into `plain`.
pub open spec fn unwraps_to<U: Fn(&[u8]) -> Result<Vec<u8>, String>>(
    unwrap: U,
    stored: Seq<u8>,
    plain: Seq<u8>,
) -> bool {
    exists|b: &[u8], v: Vec<u8>|
        b@ == stored && v@ == plain && #[trigger] call_ensures(unwrap, (b,), Ok(v))
}

/// `unwrap` can give some plaintext for `stored`.
pub open spec fn unwraps<U: Fn(&[u8]) -> Result<Vec<u8>, String>>(
    unwrap: U,
    stored: Seq<u8>,
) -> bool {
    exists|plain: Seq<u8>| unwraps_to(unwrap, stored, plain)
}

/// `unwrap` can refuse `stored` with this message.
pub open spec fn unwrap_fails<U: Fn(&[u8]) -> Result<Vec<u8>, String>>(
    unwrap: U,
    stored: Seq<u8>,
    message: Seq<char>,
) -> bool {
    exists|b: &[u8], s: String|
        b@ == stored && s@ == message && #[trigger] call_ensures(unwrap, (b,), Err(s))
}

/// `unwrap` gives back what `wrap` was given.
pub open spec fn inverse<W: Fn(&[u8]) -> Vec<u8>, U: Fn(&[u8]) -> Result<Vec<u8>, String>>(
    wrap: W,
    unwrap: U,
) -> bool {
    &&& forall|plain: Seq<u8>, stored: Seq<u8>, back: Seq<u8>| #[trigger]
        wraps_to(wrap, plain, stored) && #[trigger] unwraps_to(unwrap, stored, back) ==> back
            == plain
    &&& forall|plain: Seq<u8>, stored: Seq<u8>, message: Seq<char>| #[trigger]
        wraps_to(wrap, plain, stored) ==> !#[trigger] unwrap_fails(unwrap, stored, message)
}

/// Wraps a secret.
pub fn wrap_secret<W: Fn(&[u8]) -> Vec<u8>>(wrap: &W, plain: &[u8]) -> (stored: Vec<u8>)
    requires
        can_wrap(*wrap),
    ensures
        wraps_to(*wrap, plain@, stored@),
{
    wrap(plain)
}

/// Unwraps a stored secret.
pub fn unwrap_secret<U: Fn(&[u8]) -> Result<Vec<u8>, String>>(unwrap: &U, stored: &[u8]) -> (plain:
    Result<Vec<u8>, String>)
    requires
        can_unwrap(*unwrap),
    ensures
        match plain {
            Ok(p) => unwraps_to(*unwrap, stored@, p@),
            Err(m) => unwrap_fails(*unwrap, stored@, m@),
        },
{
    unwrap(stored)
}

/// What was wrapped, unwrapped or refused is what the supplied function was given and gave back.
pub proof fn law_wrapping_is_the_callers<
    W: Fn(&[u8]) -> Vec<u8>,
    U: Fn(&[u8]) -> Result<Vec<u8>, String>,
>(wrap: W, unwrap: U, b: &[u8], v: Vec<u8>, s: String, from: Seq<u8>, to: Seq<u8>, words: Seq<char>)
    ensures
        call_ensures(wrap, (b,), v) ==> wraps_to(wrap, b@, v@),
        call_ensures(unwrap, (b,), Ok(v)) ==> unwraps_to(unwrap, b@, v@) && unwraps(unwrap, b@),
        call_ensures(unwrap, (b,), Err(s)) ==> unwrap_fails(unwrap, b@, s@),
        wraps_to(wrap, from, to) ==> exists|x: &[u8], y: Vec<u8>|
            x@ == from && y@ == to && #[trigger] call_ensures(wrap, (x,), y),
        unwraps_to(unwrap, from, to) ==> exists|x: &[u8], y: Vec<u8>|
            x@ == from && y@ == to && #[trigger] call_ensures(unwrap, (x,), Ok(y)),
        unwraps(unwrap, from) ==> exists|x: &[u8], y: Vec<u8>|
            x@ == from && #[trigger] call_ensures(unwrap, (x,), Ok(y)),
        unwrap_fails(unwrap, from, words) ==> exists|x: &[u8], y: String|
            x@ == from && y@ == words && #[trigger] call_ensures(unwrap, (x,), Err(y)),
{
    if call_ensures(unwrap, (b,), Ok::<Vec<u8>, String>(v)) {
        assert(unwraps_to(unwrap, b@, v@));
    }
    if unwraps(unwrap, from) {
        let plain = choose|plain: Seq<u8>| unwraps_to(unwrap, from, plain);
        assert(unwraps_to(unwrap, from, plain));
    }
}

/// `unwrap` undoes `wrap` exactly where it gives back what was wrapped and refuses none of it.
pub proof fn law_inverse<W: Fn(&[u8]) -> Vec<u8>, U: Fn(&[u8]) -> Result<Vec<u8>, String>>(
    wrap: W,
    unwrap: U,
    plain: Seq<u8>,
    stored: Seq<u8>,
    back: Seq<u8>,
    message: Seq<char>,
)
    requires
        inverse(wrap, unwrap),
        wraps_to(wrap, plain, stored),
    ensures
        unwraps_to(unwrap, stored, back) ==> back == plain,
        !unwrap_fails(unwrap, stored, message),
{
}

} // verus!
