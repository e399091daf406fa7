//! Bearer tokens.

use mcp_toolkit::auth::{constant_time_eq, guard};

#[test]
fn comparison_is_still_correct() {
    assert!(constant_time_eq(b"abc", b"abc"));
    assert!(!constant_time_eq(b"abc", b"abd"));
    assert!(!constant_time_eq(b"abc", b"ab"));
    assert!(constant_time_eq(b"", b""));
}

#[test]
fn a_request_is_admitted_by_its_bearer_token() {
    assert!(guard("secret", Some("Bearer secret")));
    assert!(guard("secret", Some("Bearer   secret  ")));
    assert!(!guard("secret", Some("Bearer secrets")));
    assert!(!guard("secret", Some("bearer secret")));
    assert!(!guard("secret", Some("Basic secret")));
    assert!(!guard("secret", Some("secret")));
    assert!(!guard("secret", Some("")));
}

#[test]
fn a_request_without_a_token_is_not_admitted() {
    assert!(!guard("secret", None));
    assert!(!guard("secret", Some("Bearer ")));
    assert!(!guard("secret", Some("Bearer")));
}
