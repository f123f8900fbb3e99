//! Per-world memos: a string-keyed map of free text, with a
//! case-insensitive full-text search. Loading and saving the map is the
//! caller's business.

use vstd::prelude::*;

use crate::kv::keys_unique;
use crate::kv::spec_lookup;
use crate::text::contains_subseq;
use crate::trusted::lower_bytes_of;

verus! {

/// The memos, keyed by world identifier.
pub struct MemoManager {
    pub memo: Vec<(String, String)>,
}

impl MemoManager {
    /// The keys stay unique.
    pub open spec fn wf(&self) -> bool {
        keys_unique(self.memo@)
    }

    /// An empty memo map.
    pub fn new() -> (r: Self)
        ensures
            r.wf(),
            r.memo@.len() == 0,
    {
        MemoManager { memo: Vec::new() }
    }

    /// The memo stored for a world, if any.
    pub fn get_memo(&self, world_id: &str) -> (r: Option<&str>)
        requires
            self.wf(),
        ensures
            (match r {
                Some(m) => spec_lookup(self.memo@, world_id@) matches Some(s) && s@ == m@,
                None => spec_lookup(self.memo@, world_id@) is None,
            }),
    {
        match crate::kv::find_key(&self.memo, &world_id.to_owned()) {
            Some(i) => Some(self.memo[i].1.as_str()),
            None => None,
        }
    }

    /// Stores a world's memo, replacing what it had. Other worlds' memos
    /// stay as they were.
    pub fn set_memo(&mut self, world_id: &str, memo: &str)
        requires
            old(self).wf(),
        ensures
            final(self).wf(),
            spec_lookup(final(self).memo@, world_id@) matches Some(s) && s@ == memo@,
            forall|k: Seq<char>|
                k != world_id@ ==> spec_lookup(final(self).memo@, k) == spec_lookup(
                    old(self).memo@,
                    k,
                ),
    {
        crate::kv::insert_value(&mut self.memo, world_id.to_owned(), memo.to_owned());
    }

    /// The identifiers of the worlds whose memo holds the search text,
    /// both sides lowercased, in the map's order.
    pub fn search_memo_text(&self, search_text: &str) -> (r: Vec<String>)
        requires
            self.wf(),
        ensures
            r.deep_view() == spec_matching_ids(self.memo@, search_text@),
    {
        let needle = crate::trusted::lower_bytes(search_text);
        let mut r: Vec<String> = Vec::new();
        let mut i: usize = 0;
        proof {
            assert(self.memo@.subrange(0, 0) =~= Seq::<(String, String)>::empty());
            assert(r.deep_view() =~= spec_matching_ids(self.memo@.subrange(0, 0), search_text@));
        }
        while i < self.memo.len()
            invariant
                0 <= i <= self.memo@.len(),
                needle@ == lower_bytes_of(search_text@),
                r.deep_view() == spec_matching_ids(self.memo@.subrange(0, i as int), search_text@),
            decreases self.memo@.len() - i,
        {
            let hay = crate::trusted::lower_bytes(self.memo[i].1.as_str());
            let ghost pre = r.deep_view();
            proof {
                assert(self.memo@.subrange(0, i + 1).drop_last() =~= self.memo@.subrange(
                    0,
                    i as int,
                ));
                assert(self.memo@.subrange(0, i + 1).last() == self.memo@[i as int]);
            }
            if crate::text::contains_bytes(hay.as_slice(), needle.as_slice()) {
                r.push(self.memo[i].0.clone());
                proof {
                    assert(vstd::pervasive::cloned::<String>(
                        self.memo@[i as int].0,
                        r@[r@.len() - 1],
                    ));
                    assert forall|j: int| 0 <= j < r.deep_view().len() implies r.deep_view()[j]
                        == spec_matching_ids(
                        self.memo@.subrange(0, i + 1),
                        search_text@,
                    )[j] by {
                        if j < pre.len() {
                            assert(r.deep_view()[j] == pre[j]);
                        }
                    }
                    assert(r.deep_view() =~= spec_matching_ids(
                        self.memo@.subrange(0, i + 1),
                        search_text@,
                    ));
                }
            }
            i = i + 1;
        }
        proof {
            assert(self.memo@.subrange(0, self.memo@.len() as int) =~= self.memo@);
        }
        r
    }
}

/// The identifiers of the entries whose memo holds the search text, both
/// sides lowercased, in entry order.
pub open spec fn spec_matching_ids(memo: Seq<(String, String)>, search: Seq<char>) -> Seq<Seq<char>>
    decreases memo.len(),
{
    if memo.len() == 0 {
        Seq::<Seq<char>>::empty()
    } else {
        let rest = spec_matching_ids(memo.drop_last(), search);
        if contains_subseq(lower_bytes_of(memo.last().1@), lower_bytes_of(search)) {
            rest.push(memo.last().0@)
        } else {
            rest
        }
    }
}

} // verus!
