//! The decisions that the Android bridge makes on the values Kotlin hands it.
use vstd::prelude::*;
use crate::auth::Credentials;

verus! {

broadcast use vstd::string::group_string_axioms;

/// An optional text field from the app: absent or empty both mean "not given".
pub fn given_text(v: Option<String>) -> (r: Option<String>)
    ensures
        match v {
            Some(s) => if s@.len() == 0 {
                r is None
            } else {
                r is Some && r->0@ == s@
            },
            None => r is None,
        },
{
    match v {
        Some(s) => {
            if s.as_str().is_empty() {
                None
            } else {
                Some(s)
            }
        },
        None => None,
    }
}

/// Credentials are required only when both a user and a password are given.
pub fn credentials_from(user: Option<String>, pass: Option<String>) -> (r: Option<Credentials>)
    ensures
        match (user, pass) {
            (Some(u), Some(p)) => r is Some && r->0.user@ == u@ && r->0.pass@ == p@,
            _ => r is None,
        },
{
    match (user, pass) {
        (Some(user), Some(pass)) => Some(Credentials { user, pass }),
        _ => None,
    }
}

/// The port from a Java `int`: its low 16 bits, as `port as u16` takes them.
pub fn port_from_java(port: i32) -> (r: u16)
    ensures
        r == port as u16,
{
    port as u16
}

} // verus!
