//! Laws of the policy store.
//!
//! [`Store`]'s operations speak of its view, a map from site names to
//! details: `upsert` yields `view.insert(site, details)`, `delete` yields
//! `view.remove(site)`, and `details_for_site` reads the map. The laws here
//! state what sequences of those operations observe, at the level of that
//! view, so that each holds of any store the operations can produce.
//!
//! [`Store`]: crate::store::Store

use vstd::prelude::*;

use crate::details::DetailsView;
use crate::outcome::{DeleteOutcome, PutOutcome};

verus! {

/// A site never written stays unregistered: it is absent from a fresh
/// store's view, and neither an upsert nor a delete of a different site
/// registers it. For such a site `details_for_site` answers the empty
/// sequence (its contract on an absent key), which the boundary reports as
/// not-found.
pub proof fn lemma_unwritten_site_absent(
    m: Map<Seq<char>, DetailsView>,
    site: Seq<char>,
    other: Seq<char>,
    d: DetailsView,
)
    requires
        !m.contains_key(site),
        other != site,
    ensures
        !Map::<Seq<char>, DetailsView>::empty().contains_key(site),
        !m.insert(other, d).contains_key(site),
        !m.remove(other).contains_key(site),
{
}

/// Reading a site right after upserting it yields exactly the record that
/// was upserted: the key is registered and maps to the given details, with
/// the forbidden characters in their given order.
pub proof fn lemma_upsert_then_read(
    m: Map<Seq<char>, DetailsView>,
    site: Seq<char>,
    d: DetailsView,
)
    ensures
        m.insert(site, d).contains_key(site),
        m.insert(site, d)[site] == d,
{
}

/// Upserting the same record twice is idempotent on content: the store's
/// view after the second upsert equals the view after the first, so a read
/// answers the same either way; and the second upsert finds the site
/// registered, so it reports `Replaced`.
pub proof fn lemma_upsert_idempotent(
    m: Map<Seq<char>, DetailsView>,
    site: Seq<char>,
    d: DetailsView,
)
    ensures
        m.insert(site, d).insert(site, d) == m.insert(site, d),
        (if m.insert(site, d).contains_key(site) {
            PutOutcome::Replaced
        } else {
            PutOutcome::Created
        }) == PutOutcome::Replaced,
{
    assert(m.insert(site, d).insert(site, d) =~= m.insert(site, d));
}

/// The last upsert wins: after upserting `d1` and then `d2` for the same
/// site, a read reflects only `d2` — no forbidden characters of `d1` are
/// left behind — and sites other than `site` are untouched.
pub proof fn lemma_upsert_overwrites(
    m: Map<Seq<char>, DetailsView>,
    site: Seq<char>,
    d1: DetailsView,
    d2: DetailsView,
)
    ensures
        m.insert(site, d1).insert(site, d2) == m.insert(site, d2),
        m.insert(site, d1).insert(site, d2)[site] == d2,
{
    assert(m.insert(site, d1).insert(site, d2) =~= m.insert(site, d2));
}

/// Deleting an existing site removes it: it reports `Deleted`, a subsequent
/// read finds the site unregistered (so the boundary reports not-found), and
/// a second delete of the same site reports `NotFound`.
pub proof fn lemma_delete_removes(m: Map<Seq<char>, DetailsView>, site: Seq<char>)
    requires
        m.contains_key(site),
    ensures
        (if m.contains_key(site) {
            DeleteOutcome::Deleted
        } else {
            DeleteOutcome::NotFound
        }) == DeleteOutcome::Deleted,
        !m.remove(site).contains_key(site),
        (if m.remove(site).contains_key(site) {
            DeleteOutcome::Deleted
        } else {
            DeleteOutcome::NotFound
        }) == DeleteOutcome::NotFound,
        m.remove(site).remove(site) == m.remove(site),
{
    assert(m.remove(site).remove(site) =~= m.remove(site));
}

} // verus!
