use vstd::prelude::*;
use crate::filter::Filter;
use crate::store::{Layout, Score, Scoreboard};

verus! {

/// One row of the leaderboard: a score joined to its layout.
pub struct Entry {
    pub user: String,
    pub speed: u16,
    pub layout: String,
    pub magic: bool,
    pub thumb_alpha: bool,
    pub focus: String,
    pub creator: String,
}

/// The row that a score and its layout make together.
pub open spec fn entry_of(s: Score, l: Layout) -> Entry {
    Entry {
        user: s.user,
        speed: s.speed,
        layout: l.name,
        magic: l.magic,
        thumb_alpha: l.thumb_alpha,
        focus: l.focus,
        creator: l.creator,
    }
}

/// The rows that a filter admits, in storage order.
pub open spec fn matching(rows: Seq<Entry>, f: Filter) -> Seq<Entry> {
    rows.filter(|e: Entry| f.admits(e))
}

/// Whether row `a`, at position `i` of the input, comes before row `b`, at position `j`:
/// faster first, and among equal speeds the earlier row first.
pub open spec fn ranks_before(a: Entry, b: Entry, i: int, j: int) -> bool {
    a.speed > b.speed || (a.speed == b.speed && i < j)
}

/// Whether position `j` of the input occurs among the first `n` entries of `p`.
pub open spec fn placed(p: Seq<int>, n: int, j: int) -> bool {
    exists|k: int| 0 <= k < n && #[trigger] p[k] == j
}

/// Whether `out` is the rows `m` rearranged by the permutation `p` (`out[k] == m[p[k]]`)
/// into ranking order.
pub open spec fn arranged(out: Seq<Entry>, m: Seq<Entry>, p: Seq<int>) -> bool {
    &&& p.len() == out.len()
    &&& out.len() == m.len()
    &&& forall|k: int| 0 <= k < out.len() ==> 0 <= #[trigger] p[k] < m.len() && out[k] == m[p[k]]
    &&& forall|k: int, l: int| 0 <= k < out.len() && 0 <= l < out.len() && k != l
        ==> #[trigger] p[k] != #[trigger] p[l]
    &&& forall|j: int| 0 <= j < m.len() ==> #[trigger] placed(p, out.len() as int, j)
    &&& forall|k: int, l: int| 0 <= k < l < out.len() ==> ranks_before(#[trigger] out[k], #[trigger] out[l], p[k], p[l])
}

/// Whether `out` holds the rows `m` by speed descending, equal speeds in their order in `m`.
pub open spec fn ranked(out: Seq<Entry>, m: Seq<Entry>) -> bool {
    exists|p: Seq<int>| arranged(out, m, p)
}

impl Scoreboard {
    /// The layout with this id.
    pub open spec fn layout_of(&self, id: u64) -> Layout {
        self.layouts_seq()[choose|k: int| 0 <= k < self.layouts_seq().len() && self.layouts_seq()[k].id == id]
    }

    /// Every score joined to its layout, in storage order.
    pub open spec fn joined(&self) -> Seq<Entry> {
        self.scores_seq().map_values(|s: Score| entry_of(s, self.layout_of(s.layout_id)))
    }

    /// The leaderboard: the joined rows that the filter admits, fastest first, rows of
    /// equal speed in storage order.
    pub fn query(&self, filter: &Filter) -> (r: Vec<Entry>)
        requires
            self.wf(),
        ensures
            ranked(r@, matching(self.joined(), *filter)),
    {
        let mut out: Vec<Entry> = Vec::new();
        let ghost mut p: Seq<int> = Seq::empty();
        let ghost joined = self.joined();
        let mut i: usize = 0;
        proof {
            self.lemma_fields();
        }
        assert(matching(joined.take(0), *filter) =~= Seq::<Entry>::empty());
        while i < self.scores.len()
            invariant
                self.wf(),
                joined == self.joined(),
                i <= self.scores@.len(),
                arranged(out@, matching(joined.take(i as int), *filter), p),
            decreases self.scores@.len() - i,
        {
            proof {
                self.lemma_fields();
            }
            let s = &self.scores[i];
            assert(self.has_id(self.scores_seq()[i as int].layout_id));
            let k = match self.find_id(s.layout_id) {
                Some(k) => k,
                None => {
                    proof {
                        assert(false);
                    }
                    0
                },
            };
            let l = &self.layouts[k];
            let e = Entry {
                user: s.user.clone(),
                speed: s.speed,
                layout: l.name.clone(),
                magic: l.magic,
                thumb_alpha: l.thumb_alpha,
                focus: l.focus.clone(),
                creator: l.creator.clone(),
            };
            proof {
                let c = choose|c: int| 0 <= c < self.layouts_seq().len() && self.layouts_seq()[c].id == s.layout_id;
                assert(self.layouts_seq()[c].id == self.layouts_seq()[k as int].id);
                assert(c == k);
                assert(e == joined[i as int]);
                assert(joined.take(i + 1).drop_last() =~= joined.take(i as int));
                assert(joined.take(i + 1).last() == joined[i as int]);
            }
            let ghost before = matching(joined.take(i as int), *filter);
            let ghost next = matching(joined.take(i + 1), *filter);
            proof {
                reveal_with_fuel(Seq::filter, 1);
                if filter.admits(joined[i as int]) {
                    assert(next == before.push(joined[i as int]));
                } else {
                    assert(next == before);
                }
            }
            if filter.admits_entry(&e) {
                let ghost m = before;
                let q = insert_ranked(&mut out, e, Ghost(m), Ghost(p));
                proof {
                    p = q@;
                }
            }
            i = i + 1;
        }
        assert(joined.take(i as int) =~= joined);
        out
    }
}

/// Inserts a row into a ranking of `m` so that it becomes a ranking of `m.push(e)`.
fn insert_ranked(out: &mut Vec<Entry>, e: Entry, Ghost(m): Ghost<Seq<Entry>>, Ghost(p): Ghost<Seq<int>>) -> (q: Ghost<Seq<int>>)
    requires
        arranged(old(out)@, m, p),
    ensures
        arranged(final(out)@, m.push(e), q@),
{
    let mut pos: usize = 0;
    while pos < out.len() && out[pos].speed >= e.speed
        invariant
            pos <= out@.len(),
            forall|k: int| 0 <= k < pos ==> #[trigger] out@[k].speed >= e.speed,
        decreases out@.len() - pos,
    {
        pos = pos + 1;
    }
    let ghost o = out@;
    assert forall|k: int| pos <= k < o.len() implies #[trigger] o[k].speed < e.speed by {
        if k > pos {
            assert(ranks_before(o[pos as int], o[k], p[pos as int], p[k]));
        }
    }
    out.insert(pos, e);
    let ghost q = p.insert(pos as int, m.len() as int);
    let ghost n = out@;
    let ghost m2 = m.push(e);
    assert forall|k: int| 0 <= k < n.len() implies 0 <= #[trigger] q[k] < m2.len() && n[k] == m2[q[k]] by {
        if k < pos {
            assert(n[k] == o[k] && q[k] == p[k]);
        } else if k > pos {
            assert(n[k] == o[k - 1] && q[k] == p[k - 1]);
        }
    }
    assert forall|k: int, l: int| 0 <= k < n.len() && 0 <= l < n.len() && k != l implies #[trigger] q[k] != #[trigger] q[l] by {
        let kk = if k < pos { k } else { k - 1 };
        let ll = if l < pos { l } else { l - 1 };
        if k != pos && l != pos {
            assert(q[k] == p[kk] && q[l] == p[ll]);
        } else if k == pos {
            assert(q[l] == p[ll]);
        } else {
            assert(q[k] == p[kk]);
        }
    }
    assert forall|j: int| 0 <= j < m2.len() implies #[trigger] placed(q, n.len() as int, j) by {
        if j < m.len() {
            assert(placed(p, o.len() as int, j));
            let k0 = choose|k: int| 0 <= k < o.len() && #[trigger] p[k] == j;
            if k0 < pos {
                assert(q[k0] == j);
            } else {
                assert(q[k0 + 1] == j);
            }
        } else {
            assert(q[pos as int] == j);
        }
    }
    assert forall|k: int, l: int| 0 <= k < l < n.len() implies ranks_before(#[trigger] n[k], #[trigger] n[l], q[k], q[l]) by {
        if l < pos {
            assert(n[k] == o[k] && n[l] == o[l] && q[k] == p[k] && q[l] == p[l]);
        } else if k > pos {
            assert(n[k] == o[k - 1] && n[l] == o[l - 1] && q[k] == p[k - 1] && q[l] == p[l - 1]);
        } else if k < pos && l == pos {
            assert(n[k] == o[k] && q[k] == p[k]);
        } else if k < pos && l > pos {
            assert(n[k] == o[k] && n[l] == o[l - 1] && q[k] == p[k] && q[l] == p[l - 1]);
            assert(ranks_before(o[k], o[l - 1], p[k], p[l - 1]));
        } else {
            assert(n[l] == o[l - 1] && q[l] == p[l - 1]);
        }
    }
    Ghost(q)
}

/// A ranking lists speeds in descending order.
pub proof fn lemma_ranked_descending(out: Seq<Entry>, m: Seq<Entry>)
    requires
        ranked(out, m),
    ensures
        forall|k: int, l: int| 0 <= k < l < out.len() ==> (#[trigger] out[k]).speed >= (#[trigger] out[l]).speed,
{
    let p = choose|p: Seq<int>| arranged(out, m, p);
    assert forall|k: int, l: int| 0 <= k < l < out.len() implies (#[trigger] out[k]).speed >= (#[trigger] out[l]).speed by {
        assert(ranks_before(out[k], out[l], p[k], p[l]));
    }
}

proof fn lemma_same_position(a: Seq<Entry>, b: Seq<Entry>, m: Seq<Entry>, p: Seq<int>, q: Seq<int>, k: int)
    requires
        arranged(a, m, p),
        arranged(b, m, q),
        0 <= k < a.len(),
    ensures
        p[k] == q[k],
    decreases k,
{
    assert forall|j: int| 0 <= j < k implies p[j] == q[j] by {
        lemma_same_position(a, b, m, p, q, j);
    }
    if p[k] != q[k] {
        let x = p[k];
        let y = q[k];
        assert(placed(p, a.len() as int, y));
        let l = choose|l: int| 0 <= l < a.len() && #[trigger] p[l] == y;
        assert(placed(q, b.len() as int, x));
        let l2 = choose|l: int| 0 <= l < b.len() && #[trigger] q[l] == x;
        if l < k {
            assert(q[l] == y);
        }
        if l2 < k {
            assert(p[l2] == x);
        }
        assert(ranks_before(a[k], a[l], p[k], p[l]));
        assert(ranks_before(b[k], b[l2], q[k], q[l2]));
    }
}

/// The same rows have one ranking only: repeating a query on unchanged data gives
/// the same rows in the same order, ties included.
pub proof fn lemma_ranking_unique(a: Seq<Entry>, b: Seq<Entry>, m: Seq<Entry>)
    requires
        ranked(a, m),
        ranked(b, m),
    ensures
        a == b,
{
    let p = choose|p: Seq<int>| arranged(a, m, p);
    let q = choose|q: Seq<int>| arranged(b, m, q);
    assert forall|k: int| 0 <= k < a.len() implies a[k] == b[k] by {
        lemma_same_position(a, b, m, p, q, k);
    }
    assert(a =~= b);
}

/// Every row of a filtered ranking meets every criterion that the filter holds.
pub proof fn lemma_rows_meet_filter(out: Seq<Entry>, rows: Seq<Entry>, f: Filter)
    requires
        ranked(out, matching(rows, f)),
    ensures
        forall|k: int| 0 <= k < out.len() ==> f.admits(#[trigger] out[k]),
{
    let m = matching(rows, f);
    let p = choose|p: Seq<int>| arranged(out, m, p);
    assert forall|k: int| 0 <= k < out.len() implies f.admits(#[trigger] out[k]) by {
        rows.lemma_filter_pred(|e: Entry| f.admits(e), p[k]);
    }
}

} // verus!
