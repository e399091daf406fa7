//! Bearer-token authentication for the HTTP transports.

use vstd::prelude::*;
use vstd::utf8::*;

use crate::text;
use crate::text::{strip_prefix, trim};

verus! {

/// The token that a request presents: what follows `Bearer ` in its
/// `Authorization` header, without surrounding white space. A request without
/// such a header presents none.
pub open spec fn presented(authorization: Option<&str>) -> Seq<char> {
    match authorization {
        Some(value) => match text::after_prefix(value@, "Bearer "@) {
            Some(rest) => text::trimmed(rest),
            None => Seq::empty(),
        },
        None => Seq::empty(),
    }
}

/// Admits a request only if it presents the expected bearer token.
///
/// `authorization` is the request's `Authorization` header, if it has one that
/// is text.
pub fn guard(expected: &str, authorization: Option<&str>) -> (admitted: bool)
    ensures
        admitted == (presented(authorization) == expected@),
{
    let token: &str = match authorization {
        Some(value) => match strip_prefix(value, "Bearer ") {
            Some(rest) => trim(rest),
            None => "",
        },
        None => "",
    };
    proof {
        reveal_strlit("");
        assert(token@ =~= presented(authorization));
        encode_utf8_decode_utf8(token@);
        encode_utf8_decode_utf8(expected@);
    }
    constant_time_eq(token.as_bytes(), expected.as_bytes())
}

/// Compares without leaking the position of the first difference: every byte is
/// looked at, whatever the earlier ones were.
pub fn constant_time_eq(a: &[u8], b: &[u8]) -> (same: bool)
    ensures
        same == (a@ == b@),
{
    if a.len() != b.len() {
        return false;
    }
    let mut difference: u8 = 0;
    for i in 0..a.len()
        invariant
            a@.len() == b@.len(),
            difference == 0 <==> forall|j: int| 0 <= j < i ==> a@[j] == b@[j],
    {
        let x: u8 = a[i];
        let y: u8 = b[i];
        let before: u8 = difference;
        difference = before | (x ^ y);
        assert((before | (x ^ y)) == 0 <==> before == 0 && x == y) by (bit_vector);
    }
    proof {
        if difference == 0 {
            assert(a@ =~= b@);
        }
    }
    difference == 0
}

/// A request that presents no token is never admitted where one is expected.
pub proof fn no_token_is_not_enough(expected: Seq<char>)
    requires
        expected.len() > 0,
    ensures
        presented(None) != expected,
{
}

/// A request presents the token behind `Bearer ` in its header, without the white
/// space around it; any other header presents nothing.
pub proof fn the_token_behind_bearer_is_presented(header: &str, rest: Seq<char>)
    ensures
        header@ == "Bearer "@ + rest ==> presented(Some(header)) == text::trimmed(rest),
        (forall|other: Seq<char>| header@ != "Bearer "@ + other) ==> presented(Some(header)).len()
            == 0,
{
    text::a_prefix_and_the_rest_make_the_text(header@, "Bearer "@, rest);
    match text::after_prefix(header@, "Bearer "@) {
        Some(found) => {
            text::a_prefix_and_the_rest_make_the_text(header@, "Bearer "@, found);
        },
        None => {},
    }
}

/// Whoever presents the token that is expected is admitted, and nobody else: for a
/// token without white space around it, the header has to be `Bearer ` and the
/// token.
pub proof fn only_the_expected_token_is_admitted(expected: Seq<char>, header: &str)
    requires
        expected.len() > 0,
        text::trimmed(expected) == expected,
    ensures
        header@ == "Bearer "@ + expected ==> presented(Some(header)) == expected,
        presented(Some(header)) == expected ==> exists|rest: Seq<char>|
            #![trigger text::trimmed(rest)]
            header@ == "Bearer "@ + rest && text::trimmed(rest) == expected,
{
    the_token_behind_bearer_is_presented(header, expected);
    if presented(Some(header)) == expected {
        let rest = text::after_prefix(header@, "Bearer "@)->0;
        text::a_prefix_and_the_rest_make_the_text(header@, "Bearer "@, rest);
        assert(text::trimmed(rest) == expected);
    }
}

} // verus!
