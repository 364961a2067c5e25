//! Per-site password-composition policies.
//!
//! Each registered site carries one login record (a username and an optional
//! maximum password length) together with a set of forbidden characters.
//! The crate holds the relational model of that data and the logic that a
//! storage-backed service needs: reading a site's details back from the
//! normalized tables, replacing a site's policy atomically, deleting a site,
//! decoding the grouped-join aggregate in which the forbidden characters come
//! back from a relational store, and classifying observed row counts into
//! outcomes.

use vstd::prelude::*;

pub mod codec;
pub mod details;
pub mod laws;
pub mod outcome;
pub mod store;

verus! {

/// Greeting served at the root of the service.
pub fn index() -> (r: &'static str)
    ensures
        r@ == "Hello, world!"@,
{
    "Hello, world!"
}

} // verus!
