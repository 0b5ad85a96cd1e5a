//! A ranked leaderboard of prior runs.
//!
//! Entries are kept strictly sorted from best to worst. Two entries rank
//! equal when their scores are equal and their source texts have the same
//! byte length; adding an entry that ranks equal to a present one leaves the
//! board unchanged, so the board never holds two entries of equal rank.

use vstd::prelude::*;

use crate::sim::{spec_score_cmp, Score};

verus! {

use core::cmp::Ordering;

/// One leaderboard entry: who ran, what they scored, and the source text of
/// their controller.
pub struct RankedSource {
    pub username: String,
    pub score: Score,
    pub source: String,
}

/// The byte length of a source text, as `str::len` reports it.
pub open spec fn spec_source_len(s: Seq<char>) -> int {
    vstd::utf8::encode_utf8(s).len() as usize as int
}

/// The order on entries: by score, and between equal scores by the byte
/// length of the source, longer ranking higher.
pub open spec fn spec_ranked_cmp(a: RankedSource, b: RankedSource) -> Ordering {
    if spec_score_cmp(a.score, b.score) != Ordering::Equal {
        spec_score_cmp(a.score, b.score)
    } else if spec_source_len(a.source@) == spec_source_len(b.source@) {
        Ordering::Equal
    } else if spec_source_len(a.source@) < spec_source_len(b.source@) {
        Ordering::Less
    } else {
        Ordering::Greater
    }
}

/// Whether two entries carry the same data: equal usernames, scores and
/// sources. (Entries hold `String`s, so equality is stated over the views.)
pub open spec fn spec_entry_eq(a: RankedSource, b: RankedSource) -> bool {
    a.username@ == b.username@ && a.score == b.score && a.source@ == b.source@
}

impl RankedSource {
    /// Compares two entries; see [`spec_ranked_cmp`] for the order.
    pub fn cmp(&self, other: &RankedSource) -> (r: Ordering)
        ensures
            r == spec_ranked_cmp(*self, *other),
    {
        let sc = self.score.cmp(&other.score);
        match sc {
            Ordering::Equal => {
                let a_len = self.source.as_str().len();
                let b_len = other.source.as_str().len();
                if a_len == b_len {
                    Ordering::Equal
                } else if a_len < b_len {
                    Ordering::Less
                } else {
                    Ordering::Greater
                }
            },
            _ => sc,
        }
    }

    /// A copy of this entry, with the same data.
    pub fn duplicate(&self) -> (r: RankedSource)
        ensures
            spec_entry_eq(r, *self),
    {
        RankedSource {
            username: self.username.clone(),
            score: self.score,
            source: self.source.clone(),
        }
    }
}

/// The order on entries is total and consistent: `Equal` means equal rank
/// keys, `Less` and `Greater` are each other's mirror images, and ranking
/// above is transitive.
pub proof fn lemma_ranked_order_total(a: RankedSource, b: RankedSource, c: RankedSource)
    ensures
        spec_ranked_cmp(a, a) == Ordering::Equal,
        spec_ranked_cmp(a, b) == Ordering::Less <==> spec_ranked_cmp(b, a) == Ordering::Greater,
        spec_ranked_cmp(a, b) == Ordering::Equal <==> spec_ranked_cmp(b, a) == Ordering::Equal,
        spec_ranked_cmp(a, b) == Ordering::Greater && spec_ranked_cmp(b, c) == Ordering::Greater
            ==> spec_ranked_cmp(a, c) == Ordering::Greater,
{
}

/// The leaderboard: entries strictly sorted from best to worst.
pub struct Leaderboard {
    rankings: Vec<RankedSource>,
}

impl View for Leaderboard {
    type V = Seq<RankedSource>;

    closed spec fn view(&self) -> Seq<RankedSource> {
        self.rankings@
    }
}

impl Leaderboard {
    /// Well-formedness: strictly descending in rank — every earlier entry
    /// ranks strictly above every later one.
    pub open spec fn wf(&self) -> bool {
        forall|i: int, j: int|
            0 <= i < j < self@.len() ==> spec_ranked_cmp(#[trigger] self@[i], #[trigger] self@[j])
                == Ordering::Greater
    }

    /// An empty leaderboard.
    pub fn new() -> (r: Leaderboard)
        ensures
            r.wf(),
            r@.len() == 0,
    {
        Leaderboard { rankings: Vec::new() }
    }

    /// Adds a run to the board. If an entry of equal rank — equal score and
    /// equal source byte length — is already present, the board is left
    /// unchanged; otherwise the new entry is placed at its rank.
    #[verifier::loop_isolation(false)]
    pub fn add(&mut self, username: String, code: String, score: Score)
        requires
            old(self).wf(),
        ensures
            final(self).wf(),
            (exists|i: int|
                0 <= i < old(self)@.len() && spec_ranked_cmp(
                    (RankedSource { username, score, source: code }),
                    #[trigger] old(self)@[i],
                ) == Ordering::Equal) ==> final(self)@ == old(self)@,
            (forall|i: int|
                0 <= i < old(self)@.len() ==> spec_ranked_cmp(
                    (RankedSource { username, score, source: code }),
                    #[trigger] old(self)@[i],
                ) != Ordering::Equal) ==> exists|k: int|
                0 <= k <= old(self)@.len() && final(self)@ == old(self)@.insert(
                    k,
                    (RankedSource { username, score, source: code }),
                ),
    {
        let entry = RankedSource { username, score, source: code };
        let ghost e = entry;
        let mut i: usize = 0;
        let mut stop = false;
        // Find the first position whose entry the new one outranks, or bail
        // out if an entry of equal rank is found on the way.
        while i < self.rankings.len() && !stop
            invariant
                0 <= i <= self.rankings@.len(),
                forall|j: int|
                    0 <= j < i ==> spec_ranked_cmp(e, #[trigger] self.rankings@[j])
                        == Ordering::Less,
                stop ==> i < self.rankings@.len() && spec_ranked_cmp(
                    e,
                    self.rankings@[i as int],
                ) == Ordering::Greater,
                self.rankings@ == old(self)@,
            decreases self.rankings.len() - i, if stop { 0int } else { 1int },
        {
            let c = entry.cmp(&self.rankings[i]);
            match c {
                Ordering::Equal => {
                    proof {
                        assert(spec_ranked_cmp(e, old(self)@[i as int]) == Ordering::Equal);
                    }
                    return ;
                },
                Ordering::Greater => {
                    stop = true;
                },
                Ordering::Less => {
                    i = i + 1;
                },
            }
        }
        proof {
            assert forall|j: int| 0 <= j < old(self)@.len() implies spec_ranked_cmp(
                e,
                #[trigger] old(self)@[j],
            ) != Ordering::Equal by {
                if j == i {
                    assert(spec_ranked_cmp(e, old(self)@[j]) == Ordering::Greater);
                } else if j > i {
                    lemma_ranked_order_total(e, old(self)@[i as int], old(self)@[j]);
                }
            }
        }
        self.rankings.insert(i, entry);
        proof {
            let new_view = old(self)@.insert(i as int, e);
            assert(self.rankings@ =~= new_view);
            assert forall|p: int, q: int|
                0 <= p < q < new_view.len() implies spec_ranked_cmp(
                #[trigger] new_view[p],
                #[trigger] new_view[q],
            ) == Ordering::Greater by {
                if p == i {
                    // e beats everything at or after position i in the old view.
                    if q - 1 > i {
                        lemma_ranked_order_total(e, old(self)@[i as int], old(self)@[q - 1]);
                    }
                } else if q == i {
                    // Everything before position i ranks below e.
                    lemma_ranked_order_total(e, new_view[p], new_view[p]);
                }
            }
        }
    }

    /// The top `n` entries, best first: copies of the first `n` entries of
    /// the board (all of them, if the board has fewer).
    pub fn top_n(&self, n: usize) -> (r: Vec<RankedSource>)
        ensures
            r@.len() == if n <= self@.len() {
                n as int
            } else {
                self@.len() as int
            },
            forall|i: int| 0 <= i < r@.len() ==> spec_entry_eq(#[trigger] r@[i], self@[i]),
    {
        let mut out: Vec<RankedSource> = Vec::new();
        let mut i: usize = 0;
        let limit = if n <= self.rankings.len() {
            n
        } else {
            self.rankings.len()
        };
        while i < limit
            invariant
                0 <= i <= limit,
                limit == if n <= self@.len() {
                    n as int
                } else {
                    self@.len() as int
                },
                limit <= self.rankings@.len(),
                out@.len() == i,
                forall|j: int| 0 <= j < i ==> spec_entry_eq(#[trigger] out@[j], self@[j]),
            decreases limit - i,
        {
            out.push(self.rankings[i].duplicate());
            i = i + 1;
        }
        out
    }
}

} // verus!
