//! The externally visible resource shape of a policy.

use vstd::prelude::*;

verus! {

/// A site's policy as the boundary sees it: one login plus the site's
/// forbidden characters, denormalized into a single record.
///
/// `length` is the optional maximum password length (`None` means
/// unconstrained). Each entry of `forbidden_characters` is meant to hold a
/// single character, but the store does not enforce that, so the type does
/// not either. Duplicate entries are representable and are kept as given:
/// neither writes nor reads deduplicate.
#[derive(Clone, Debug, PartialEq)]
pub struct Details {
    pub username: String,
    pub length: Option<i32>,
    pub forbidden_characters: Vec<String>,
}

/// Mathematical shape of a `Details` record.
#[verifier::ext_equal]
pub struct DetailsView {
    pub username: Seq<char>,
    pub length: Option<i32>,
    pub forbidden_characters: Seq<Seq<char>>,
}

impl View for Details {
    type V = DetailsView;

    open spec fn view(&self) -> DetailsView {
        DetailsView {
            username: self.username@,
            length: self.length,
            forbidden_characters: self.forbidden_characters.deep_view(),
        }
    }
}

} // verus!
