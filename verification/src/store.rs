//! The relational policy store and the reader/writer/deleter logic over it.
//!
//! The state is two tables. `logins` holds at most one row per site (the
//! site is the key); `forbidden` holds one row per forbidden character of a
//! site, in insertion order, duplicates allowed. The store's view is the map
//! from each registered site to the denormalized [`DetailsView`] a reader
//! obtains for it.

use vstd::prelude::*;

use crate::details::{Details, DetailsView};
use crate::outcome::{DeleteOutcome, PutOutcome};

verus! {

/// One row of the login table.
pub struct LoginRow {
    pub site: String,
    pub username: String,
    pub length: Option<i32>,
}

/// One row of the forbidden-character table.
pub struct ForbiddenRow {
    pub site: String,
    pub forbidden: String,
}

/// Is some login row keyed by `site`?
pub open spec fn has_site(logins: Seq<LoginRow>, site: Seq<char>) -> bool {
    exists|i: int| 0 <= i < logins.len() && logins[i].site@ == site
}

/// The login row keyed by `site` (meaningful only when `has_site` holds and
/// the table has no duplicate sites).
pub open spec fn row_for(logins: Seq<LoginRow>, site: Seq<char>) -> LoginRow {
    logins[choose|i: int| 0 <= i < logins.len() && logins[i].site@ == site]
}

/// No two login rows share a site.
pub open spec fn sites_unique(logins: Seq<LoginRow>) -> bool {
    forall|i: int, j: int|
        0 <= i < j < logins.len() ==> logins[i].site@ != logins[j].site@
}

/// The forbidden characters recorded for `site`, in table order.
pub open spec fn chars_for(rows: Seq<ForbiddenRow>, site: Seq<char>) -> Seq<Seq<char>>
    decreases rows.len(),
{
    if rows.len() == 0 {
        Seq::empty()
    } else {
        chars_for(rows.drop_last(), site) + (if rows.last().site@ == site {
            seq![rows.last().forbidden@]
        } else {
            Seq::empty()
        })
    }
}

/// The persistent relational state for policies.
pub struct Store {
    logins: Vec<LoginRow>,
    forbidden: Vec<ForbiddenRow>,
}

impl View for Store {
    type V = Map<Seq<char>, DetailsView>;

    /// A store denotes the map from each registered site to its details.
    closed spec fn view(&self) -> Map<Seq<char>, DetailsView> {
        Map::new(
            |site: Seq<char>| has_site(self.logins@, site),
            |site: Seq<char>|
                DetailsView {
                    username: row_for(self.logins@, site).username@,
                    length: row_for(self.logins@, site).length,
                    forbidden_characters: chars_for(self.forbidden@, site),
                },
        )
    }
}

proof fn lemma_row_for_is(logins: Seq<LoginRow>, i: int)
    requires
        sites_unique(logins),
        0 <= i < logins.len(),
    ensures
        has_site(logins, logins[i].site@),
        row_for(logins, logins[i].site@) == logins[i],
{
    let site = logins[i].site@;
    assert(has_site(logins, site));
    let j = choose|k: int| 0 <= k < logins.len() && logins[k].site@ == site;
    if i < j {
        assert(logins[i].site@ != logins[j].site@);
    } else if j < i {
        assert(logins[j].site@ != logins[i].site@);
    }
}

proof fn lemma_chars_for_push(rows: Seq<ForbiddenRow>, r: ForbiddenRow, site: Seq<char>)
    ensures
        chars_for(rows.push(r), site) == chars_for(rows, site) + (if r.site@ == site {
            seq![r.forbidden@]
        } else {
            Seq::<Seq<char>>::empty()
        }),
{
    assert(rows.push(r).drop_last() =~= rows);
    assert(rows.push(r).last() == r);
}

proof fn lemma_chars_for_absent(rows: Seq<ForbiddenRow>, site: Seq<char>)
    requires
        forall|k: int| 0 <= k < rows.len() ==> rows[k].site@ != site,
    ensures
        chars_for(rows, site) == Seq::<Seq<char>>::empty(),
    decreases rows.len(),
{
    if rows.len() > 0 {
        assert(forall|k: int|
            0 <= k < rows.drop_last().len() ==> rows.drop_last()[k].site@ != site);
        lemma_chars_for_absent(rows.drop_last(), site);
        assert(chars_for(rows, site) =~= Seq::<Seq<char>>::empty());
    }
}

impl Store {
    /// The two tables are consistent: sites key the login table, and every
    /// forbidden-character row refers to an existing login.
    pub closed spec fn wf(&self) -> bool {
        &&& sites_unique(self.logins@)
        &&& forall|k: int|
            0 <= k < self.forbidden@.len() ==> has_site(
                self.logins@,
                #[trigger] self.forbidden@[k].site@,
            )
    }

    /// A fresh store with no sites.
    pub fn new() -> (s: Store)
        ensures
            s.wf(),
            s@ == Map::<Seq<char>, DetailsView>::empty(),
    {
        let s = Store { logins: Vec::new(), forbidden: Vec::new() };
        proof {
            assert(s@ =~= Map::<Seq<char>, DetailsView>::empty());
        }
        s
    }

    /// Index of the login row for `site`, if any.
    fn find_login(&self, site: &String) -> (r: Option<usize>)
        ensures
            match r {
                Some(i) => i < self.logins@.len() && self.logins@[i as int].site@ == site@,
                None => !has_site(self.logins@, site@),
            },
    {
        let mut i: usize = 0;
        while i < self.logins.len()
            invariant
                i <= self.logins@.len(),
                forall|k: int| 0 <= k < i ==> self.logins@[k].site@ != site@,
            decreases self.logins@.len() - i,
        {
            if self.logins[i].site == *site {
                return Some(i);
            }
            i += 1;
        }
        None
    }

    /// All registered site names. No ordering is promised: the table's
    /// natural order is handed out as it stands.
    pub fn list_sites(&self) -> (r: Vec<String>)
        requires
            self.wf(),
        ensures
            r.deep_view().no_duplicates(),
            r.deep_view().to_set() == self@.dom(),
    {
        let mut r: Vec<String> = Vec::new();
        let mut i: usize = 0;
        while i < self.logins.len()
            invariant
                i <= self.logins@.len(),
                r.deep_view().len() == i,
                forall|k: int| 0 <= k < i ==> r.deep_view()[k] == self.logins@[k].site@,
            decreases self.logins@.len() - i,
        {
            let ghost pre = r.deep_view();
            r.push(self.logins[i].site.clone());
            proof {
                assert(r.deep_view() =~= pre.push(self.logins@[i as int].site@));
            }
            i += 1;
        }
        proof {
            let rv = r.deep_view();
            assert forall|p: int, q: int| 0 <= p < q < rv.len() implies rv[p] != rv[q] by {
                assert(self.logins@[p].site@ != self.logins@[q].site@);
            }
            assert forall|s: Seq<char>| rv.to_set().contains(s) implies self@.dom().contains(s) by {
                let k = choose|k: int| 0 <= k < rv.len() && rv[k] == s;
                assert(self.logins@[k].site@ == s);
                assert(has_site(self.logins@, s));
            }
            assert forall|s: Seq<char>| self@.dom().contains(s) implies rv.to_set().contains(s) by {
                let k = choose|k: int| 0 <= k < self.logins@.len() && self.logins@[k].site@ == s;
                assert(rv[k] == s);
                assert(rv.to_set().contains(s));
            }
            assert(rv.to_set() =~= self@.dom());
        }
        r
    }

    /// The details recorded for `site`: nothing when the site is not
    /// registered, and exactly one record otherwise. An empty result is what
    /// the boundary reports as not-found.
    #[verifier::loop_isolation(false)]
    pub fn details_for_site(&self, site: &String) -> (r: Vec<Details>)
        requires
            self.wf(),
        ensures
            !self@.contains_key(site@) ==> r@.len() == 0,
            self@.contains_key(site@) ==> r@.len() == 1 && r@[0]@ == self@[site@],
    {
        match self.find_login(site) {
            None => {
                let r: Vec<Details> = Vec::new();
                assert(!self@.contains_key(site@));
                r
            },
            Some(i) => {
                let mut chars: Vec<String> = Vec::new();
                let mut j: usize = 0;
                while j < self.forbidden.len()
                    invariant
                        j <= self.forbidden@.len(),
                        self.logins@[i as int].site@ == site@,
                        i < self.logins@.len(),
                        chars.deep_view() == chars_for(
                            self.forbidden@.take(j as int),
                            site@,
                        ),
                    decreases self.forbidden@.len() - j,
                {
                    proof {
                        assert(self.forbidden@.take(j + 1).drop_last() =~= self.forbidden@.take(
                            j as int,
                        ));
                        assert(self.forbidden@.take(j + 1).last() == self.forbidden@[j as int]);
                    }
                    let ghost pre = chars.deep_view();
                    if self.forbidden[j].site == *site {
                        chars.push(self.forbidden[j].forbidden.clone());
                        proof {
                            assert(chars.deep_view() =~= pre + seq![
                                self.forbidden@[j as int].forbidden@,
                            ]);
                        }
                    } else {
                        proof {
                            assert(chars_for(self.forbidden@.take(j + 1), site@) =~= pre);
                        }
                    }
                    j += 1;
                }
                proof {
                    assert(self.forbidden@.take(self.forbidden@.len() as int) =~= self.forbidden@);
                    lemma_row_for_is(self.logins@, i as int);
                }
                let d = Details {
                    username: self.logins[i].username.clone(),
                    length: self.logins[i].length,
                    forbidden_characters: chars,
                };
                let mut r: Vec<Details> = Vec::new();
                r.push(d);
                proof {
                    assert(self@.contains_key(site@));
                    assert(r@[0]@ =~= self@[site@]);
                }
                r
            },
        }
    }

    /// Replace `site`'s policy with `details`, registering the site if it was
    /// absent, and report whether it previously existed. The previous
    /// forbidden characters are dropped wholesale; the new ones are recorded
    /// in the order given, without deduplication.
    #[verifier::loop_isolation(false)]
    pub fn upsert(&mut self, site: &String, details: &Details) -> (r: PutOutcome)
        requires
            old(self).wf(),
        ensures
            final(self).wf(),
            final(self)@ == old(self)@.insert(site@, details@),
            r == (if old(self)@.contains_key(site@) {
                PutOutcome::Replaced
            } else {
                PutOutcome::Created
            }),
    {
        let ghost old_logins = self.logins@;
        let ghost old_forbidden = self.forbidden@;

        // Replace or insert the login row.
        let row = LoginRow {
            site: site.clone(),
            username: details.username.clone(),
            length: details.length,
        };
        let ghost new_row = row;
        let existed: bool;
        match self.find_login(site) {
            Some(i) => {
                existed = true;
                let _replaced = self.logins.remove(i);
                self.logins.insert(i, row);
                proof {
                    assert(self.logins@ =~= old_logins.update(i as int, new_row));
                    assert(self.logins@[i as int].site@ == site@);
                    assert(has_site(self.logins@, site@));
                    assert(sites_unique(self.logins@)) by {
                        assert forall|p: int, q: int|
                            0 <= p < q < self.logins@.len() implies self.logins@[p].site@
                            != self.logins@[q].site@ by {
                            assert(old_logins[p].site@ != old_logins[q].site@);
                            if p == i as int {
                                assert(old_logins[p].site@ == site@);
                            }
                            if q == i as int {
                                assert(old_logins[q].site@ == site@);
                            }
                        }
                    }
                }
            },
            None => {
                existed = false;
                self.logins.push(row);
                proof {
                    assert(self.logins@ =~= old_logins.push(new_row));
                    assert(self.logins@[old_logins.len() as int].site@ == site@);
                    assert(has_site(self.logins@, site@));
                    assert(sites_unique(self.logins@)) by {
                        assert forall|p: int, q: int|
                            0 <= p < q < self.logins@.len() implies self.logins@[p].site@
                            != self.logins@[q].site@ by {
                            if q == old_logins.len() as int {
                                assert(!has_site(old_logins, site@));
                                assert(old_logins[p].site@ != site@);
                            } else {
                                assert(old_logins[p].site@ != old_logins[q].site@);
                            }
                        }
                    }
                }
            },
        }
        let ghost new_logins = self.logins@;
        proof {
            assert(sites_unique(self.logins@));
            assert(has_site(self.logins@, site@));
            assert forall|s: Seq<char>| s != site@ implies (has_site(self.logins@, s) == has_site(
                old_logins,
                s,
            )) by {
                if has_site(self.logins@, s) {
                    let k = choose|k: int|
                        0 <= k < self.logins@.len() && self.logins@[k].site@ == s;
                    assert(k < old_logins.len() && old_logins[k].site@ == s);
                } else if has_site(old_logins, s) {
                    let k = choose|k: int| 0 <= k < old_logins.len() && old_logins[k].site@ == s;
                    assert(self.logins@[k].site@ == s);
                }
            }
            assert forall|s: Seq<char>| s != site@ && has_site(old_logins, s) implies row_for(
                self.logins@,
                s,
            ) == row_for(old_logins, s) by {
                let k = choose|k: int| 0 <= k < old_logins.len() && old_logins[k].site@ == s;
                lemma_row_for_is(old_logins, k);
                assert(self.logins@[k] == old_logins[k]);
                lemma_row_for_is(self.logins@, k);
            }
        }

        // Drop the site's forbidden-character rows.
        let mut kept: Vec<ForbiddenRow> = Vec::new();
        let mut j: usize = 0;
        while j < self.forbidden.len()
            invariant
                j <= self.forbidden@.len(),
                self.logins@ == new_logins,
                self.forbidden@ == old_forbidden,
                forall|k: int| 0 <= k < kept@.len() ==> #[trigger] kept@[k].site@ != site@,
                forall|k: int|
                    0 <= k < kept@.len() ==> has_site(old_logins, #[trigger] kept@[k].site@),
                forall|s: Seq<char>|
                    s != site@ ==> #[trigger] chars_for(kept@, s) == chars_for(
                        old_forbidden.take(j as int),
                        s,
                    ),
            decreases self.forbidden@.len() - j,
        {
            let ghost kept_pre = kept@;
            let keep = !(self.forbidden[j].site == *site);
            if keep {
                kept.push(ForbiddenRow {
                    site: self.forbidden[j].site.clone(),
                    forbidden: self.forbidden[j].forbidden.clone(),
                });
                proof {
                    assert(kept@ =~= kept_pre.push(old_forbidden[j as int]));
                    assert(old(self).forbidden@[j as int].site@ == old_forbidden[j as int].site@);
                    assert(has_site(old_logins, old_forbidden[j as int].site@));
                }
            }
            proof {
                assert(old_forbidden.take(j + 1).drop_last() =~= old_forbidden.take(j as int));
                assert(old_forbidden.take(j + 1).last() == old_forbidden[j as int]);
                assert forall|s: Seq<char>| s != site@ implies #[trigger] chars_for(kept@, s)
                    == chars_for(old_forbidden.take(j + 1), s) by {
                    lemma_chars_for_push(old_forbidden.take(j as int), old_forbidden[j as int], s);
                    if keep {
                        lemma_chars_for_push(kept_pre, old_forbidden[j as int], s);
                    } else {
                        assert(old_forbidden[j as int].site@ == site@);
                        assert(chars_for(old_forbidden.take(j + 1), s) =~= chars_for(
                            old_forbidden.take(j as int),
                            s,
                        ));
                    }
                }
            }
            j += 1;
        }
        proof {
            assert(old_forbidden.take(old_forbidden.len() as int) =~= old_forbidden);
            lemma_chars_for_absent(kept@, site@);
        }
        self.forbidden = kept;

        // Record the new forbidden characters, in the order given.
        let ghost base = self.forbidden@;
        let mut k: usize = 0;
        while k < details.forbidden_characters.len()
            invariant
                k <= details.forbidden_characters@.len(),
                self.logins@ == new_logins,
                forall|p: int|
                    0 <= p < self.forbidden@.len() ==> (#[trigger] self.forbidden@[p].site@ == site@
                        || has_site(old_logins, self.forbidden@[p].site@)),
                forall|s: Seq<char>|
                    s != site@ ==> #[trigger] chars_for(self.forbidden@, s) == chars_for(base, s),
                chars_for(self.forbidden@, site@) == details.forbidden_characters.deep_view().take(
                    k as int,
                ),
            decreases details.forbidden_characters@.len() - k,
        {
            let ghost pre = self.forbidden@;
            self.forbidden.push(ForbiddenRow {
                site: site.clone(),
                forbidden: details.forbidden_characters[k].clone(),
            });
            proof {
                let r = self.forbidden@.last();
                assert(self.forbidden@ =~= pre.push(r));
                assert forall|s: Seq<char>| s != site@ implies #[trigger] chars_for(
                    self.forbidden@,
                    s,
                ) == chars_for(base, s) by {
                    lemma_chars_for_push(pre, r, s);
                    assert(chars_for(pre, s) + Seq::<Seq<char>>::empty() =~= chars_for(pre, s));
                }
                lemma_chars_for_push(pre, r, site@);
                assert(chars_for(self.forbidden@, site@) =~= details.forbidden_characters.deep_view(
                ).take(k + 1));
            }
            k += 1;
        }

        proof {
            assert(details.forbidden_characters.deep_view().take(
                details.forbidden_characters@.len() as int,
            ) =~= details.forbidden_characters.deep_view());
            assert(self.logins@ == new_logins);
            assert(sites_unique(self.logins@));
            assert(has_site(self.logins@, site@));
            assert forall|p: int| 0 <= p < self.forbidden@.len() implies has_site(
                self.logins@,
                #[trigger] self.forbidden@[p].site@,
            ) by {
                let s = self.forbidden@[p].site@;
                if s == site@ {
                    assert(has_site(self.logins@, site@));
                } else {
                    assert(has_site(old_logins, s));
                }
            }
            assert(self.wf());
            let m0 = old(self)@;
            let m1 = self@;
            assert(old(self)@.contains_key(site@) == existed);
            assert forall|s: Seq<char>| #[trigger] m1.dom().contains(s) == m0.insert(
                site@,
                details@,
            ).dom().contains(s) by {
                if s == site@ {
                    assert(m1.dom().contains(s));
                    assert(m0.insert(site@, details@).dom().contains(s));
                } else {
                    assert(m1.dom().contains(s) == has_site(self.logins@, s));
                    assert(m0.dom().contains(s) == has_site(old_logins, s));
                }
            }
            assert forall|s: Seq<char>| m1.dom().contains(s) implies m1[s] == m0.insert(
                site@,
                details@,
            )[s] by {
                if s == site@ {
                    let i = choose|i: int|
                        0 <= i < self.logins@.len() && self.logins@[i].site@ == site@;
                    lemma_row_for_is(self.logins@, i);
                    assert(m1[s] =~= details@);
                } else {
                    let k0 = choose|k: int|
                        0 <= k < old_logins.len() && old_logins[k].site@ == s;
                    lemma_row_for_is(old_logins, k0);
                    assert(m1[s] =~= m0[s]);
                }
            }
            assert(m1 =~= m0.insert(site@, details@));
        }
        if existed {
            PutOutcome::Replaced
        } else {
            PutOutcome::Created
        }
    }

    /// Remove `site`'s login and forbidden-character rows together, or leave
    /// the store untouched and report that the site was not found.
    #[verifier::loop_isolation(false)]
    pub fn delete(&mut self, site: &String) -> (r: DeleteOutcome)
        requires
            old(self).wf(),
        ensures
            final(self).wf(),
            final(self)@ == old(self)@.remove(site@),
            r == (if old(self)@.contains_key(site@) {
                DeleteOutcome::Deleted
            } else {
                DeleteOutcome::NotFound
            }),
    {
        let ghost old_logins = self.logins@;
        let ghost old_forbidden = self.forbidden@;
        match self.find_login(site) {
            None => {
                proof {
                    assert(!old(self)@.contains_key(site@));
                    assert(old(self)@.remove(site@) =~= old(self)@);
                }
                DeleteOutcome::NotFound
            },
            Some(i) => {
                let _removed = self.logins.remove(i);
                proof {
                    assert(sites_unique(self.logins@)) by {
                        assert forall|p: int, q: int|
                            0 <= p < q < self.logins@.len() implies self.logins@[p].site@
                            != self.logins@[q].site@ by {
                            assert(self.logins@[p] == if p < i as int {
                                old_logins[p]
                            } else {
                                old_logins[p + 1]
                            });
                            assert(self.logins@[q] == if q < i as int {
                                old_logins[q]
                            } else {
                                old_logins[q + 1]
                            });
                        }
                    }
                    assert(!has_site(self.logins@, site@)) by {
                        if has_site(self.logins@, site@) {
                            let k = choose|k: int|
                                0 <= k < self.logins@.len() && self.logins@[k].site@ == site@;
                            if k < i as int {
                                assert(old_logins[k].site@ == site@);
                            } else {
                                assert(old_logins[k + 1].site@ == site@);
                            }
                        }
                    }
                    assert forall|s: Seq<char>| s != site@ implies (has_site(self.logins@, s)
                        == has_site(old_logins, s)) by {
                        if has_site(self.logins@, s) {
                            let k = choose|k: int|
                                0 <= k < self.logins@.len() && self.logins@[k].site@ == s;
                            if k < i as int {
                                assert(old_logins[k].site@ == s);
                            } else {
                                assert(old_logins[k + 1].site@ == s);
                            }
                        } else if has_site(old_logins, s) {
                            let k = choose|k: int|
                                0 <= k < old_logins.len() && old_logins[k].site@ == s;
                            if k < i as int {
                                assert(self.logins@[k].site@ == s);
                            } else {
                                assert(self.logins@[k - 1].site@ == s);
                            }
                        }
                    }
                    assert forall|s: Seq<char>| s != site@ && has_site(old_logins, s) implies
                        row_for(self.logins@, s) == row_for(old_logins, s) by {
                        let k = choose|k: int|
                            0 <= k < old_logins.len() && old_logins[k].site@ == s;
                        lemma_row_for_is(old_logins, k);
                        if k < i as int {
                            assert(self.logins@[k] == old_logins[k]);
                            lemma_row_for_is(self.logins@, k);
                        } else {
                            assert(k > i as int);
                            assert(self.logins@[k - 1] == old_logins[k]);
                            lemma_row_for_is(self.logins@, k - 1);
                        }
                    }
                }

                // Drop the site's forbidden-character rows.
                let mut kept: Vec<ForbiddenRow> = Vec::new();
                let mut j: usize = 0;
                while j < self.forbidden.len()
                    invariant
                        j <= self.forbidden@.len(),
                        self.forbidden@ == old_forbidden,
                        forall|k: int|
                            0 <= k < kept@.len() ==> #[trigger] kept@[k].site@ != site@,
                        forall|k: int|
                            0 <= k < kept@.len() ==> has_site(
                                old_logins,
                                #[trigger] kept@[k].site@,
                            ),
                        forall|s: Seq<char>|
                            s != site@ ==> #[trigger] chars_for(kept@, s) == chars_for(
                                old_forbidden.take(j as int),
                                s,
                            ),
                    decreases self.forbidden@.len() - j,
                {
                    let ghost kept_pre = kept@;
                    let keep = !(self.forbidden[j].site == *site);
                    if keep {
                        kept.push(ForbiddenRow {
                            site: self.forbidden[j].site.clone(),
                            forbidden: self.forbidden[j].forbidden.clone(),
                        });
                        proof {
                            assert(kept@ =~= kept_pre.push(old_forbidden[j as int]));
                            assert(old(self).forbidden@[j as int].site@ == old_forbidden[j as int].site@);
                            assert(has_site(old_logins, old_forbidden[j as int].site@));
                        }
                    }
                    proof {
                        assert(old_forbidden.take(j + 1).drop_last() =~= old_forbidden.take(
                            j as int,
                        ));
                        assert(old_forbidden.take(j + 1).last() == old_forbidden[j as int]);
                        assert forall|s: Seq<char>| s != site@ implies #[trigger] chars_for(
                            kept@,
                            s,
                        ) == chars_for(old_forbidden.take(j + 1), s) by {
                            lemma_chars_for_push(
                                old_forbidden.take(j as int),
                                old_forbidden[j as int],
                                s,
                            );
                            if keep {
                                lemma_chars_for_push(kept_pre, old_forbidden[j as int], s);
                            } else {
                                assert(old_forbidden[j as int].site@ == site@);
                                assert(chars_for(old_forbidden.take(j + 1), s) =~= chars_for(
                                    old_forbidden.take(j as int),
                                    s,
                                ));
                            }
                        }
                    }
                    j += 1;
                }
                proof {
                    assert(old_forbidden.take(old_forbidden.len() as int) =~= old_forbidden);
                    lemma_chars_for_absent(kept@, site@);
                }
                self.forbidden = kept;

                proof {
                    assert(self.wf());
                    let m0 = old(self)@;
                    let m1 = self@;
                    assert(m0.contains_key(site@));
                    assert forall|s: Seq<char>| m1.dom().contains(s) implies m1[s] == m0.remove(
                        site@,
                    )[s] by {
                        let k0 = choose|k: int|
                            0 <= k < old_logins.len() && old_logins[k].site@ == s;
                        lemma_row_for_is(old_logins, k0);
                        assert(m1[s] =~= m0[s]);
                    }
                    assert(m1 =~= m0.remove(site@));
                }
                DeleteOutcome::Deleted
            },
        }
    }
}

} // verus!
