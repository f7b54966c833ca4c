//! An in-memory implementation of the `RedirectRepository` port, the
//! storage backing used when no external database is wired in.
use vstd::prelude::*;

verus! {

use crate::short_url::error::RedirectErr;
use crate::short_url::{Redirect, RedirectRepository, RedirectView};
use crate::text::str_eq;

/// The map described by a sequence of records: each record stands under its
/// code, later records shadowing earlier ones.
pub open spec fn table_of(s: Seq<RedirectView>) -> Map<Seq<char>, RedirectView>
    decreases s.len(),
{
    if s.len() == 0 {
        Map::empty()
    } else {
        table_of(s.drop_last()).insert(s.last().code, s.last())
    }
}

/// The views of a sequence of records.
pub open spec fn views_of(s: Seq<Redirect>) -> Seq<RedirectView> {
    s.map_values(|x: Redirect| x@)
}

/// A code that none of the records carries is missing from their table.
pub proof fn lemma_unstored_code_misses(s: Seq<RedirectView>, c: Seq<char>)
    requires
        forall|i: int| 0 <= i < s.len() ==> (#[trigger] s[i].code) != c,
    ensures
        !table_of(s).contains_key(c),
    decreases s.len(),
{
    if s.len() > 0 {
        assert(forall|i: int| 0 <= i < s.drop_last().len() ==> (#[trigger] s.drop_last()[i].code)
            != c);
        lemma_unstored_code_misses(s.drop_last(), c);
        assert(s.last().code != c);
    }
}

/// A `RedirectRepository` that keeps its records in process memory.
pub struct MemRepository {
    entries: Vec<Redirect>,
}

impl MemRepository {
    /// Creates an empty repository.
    pub fn new() -> (r: MemRepository)
        ensures
            r.table() == Map::<Seq<char>, RedirectView>::empty(),
    {
        let r = MemRepository { entries: Vec::new() };
        proof {
            assert(views_of(r.entries@) =~= Seq::<RedirectView>::empty());
        }
        r
    }
}

impl RedirectRepository for MemRepository {
    closed spec fn table(&self) -> Map<Seq<char>, RedirectView> {
        table_of(views_of(self.entries@))
    }

    /// Process memory never fails.
    open spec fn infallible(&self) -> bool {
        true
    }

    /// Look up URL based on its short code, scanning from the most recent
    /// record backwards. Memory never fails: a miss is always `NotFound`.
    fn find(&self, code: &str) -> (r: Result<Redirect, RedirectErr>) {
        let ghost views = views_of(self.entries@);
        let mut i = self.entries.len();
        proof {
            assert(views.take(views.len() as int) =~= views);
        }
        while i > 0
            invariant
                i <= self.entries@.len(),
                views == views_of(self.entries@),
                table_of(views).contains_key(code@) == table_of(views.take(i as int)).contains_key(
                    code@,
                ),
                table_of(views).contains_key(code@) ==> table_of(views.take(i as int))[code@]
                    == table_of(views)[code@],
            decreases i,
        {
            let entry = &self.entries[i - 1];
            proof {
                assert(views.take(i as int).drop_last() =~= views.take(i as int - 1));
                assert(views.take(i as int).last() == views[i as int - 1]);
                assert(views[i as int - 1] == entry@);
            }
            if str_eq(entry.code.as_str(), code) {
                let found = Redirect {
                    created_at: entry.created_at,
                    code: entry.code.clone(),
                    url: entry.url.clone(),
                };
                proof {
                    assert(table_of(views.take(i as int))[code@] == entry@);
                    assert(found@ == entry@);
                }
                return Ok(found);
            }
            i = i - 1;
        }
        proof {
            assert(views.take(0) =~= Seq::<RedirectView>::empty());
            assert(!table_of(views).contains_key(code@));
        }
        Err(RedirectErr::NotFound)
    }

    /// Save Redirect object. Memory never fails: storing always succeeds.
    fn store(&mut self, redirect: &Redirect) -> (r: Result<(), RedirectErr>) {
        let copy = Redirect {
            created_at: redirect.created_at,
            code: redirect.code.clone(),
            url: redirect.url.clone(),
        };
        proof {
            assert(copy@ == redirect@);
        }
        self.entries.push(copy);
        proof {
            let pre = views_of(old(self).entries@);
            let post = views_of(self.entries@);
            assert(post =~= pre.push(redirect@));
            assert(post.drop_last() =~= pre);
            assert(post.last() == redirect@);
        }
        Ok(())
    }
}

} // verus!
