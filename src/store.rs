use vstd::prelude::*;
use crate::filter::{lower_of, lowercase};

verus! {

/// A named keyboard-layout configuration.
pub struct Layout {
    pub id: u64,
    pub name: String,
    pub creator: String,
    pub magic: bool,
    pub thumb_alpha: bool,
    pub focus: String,
}

/// One user's current score on one layout.
pub struct Score {
    pub layout_id: u64,
    pub user: String,
    pub speed: u16,
}

/// Why an operation on the store was refused.
#[derive(Debug, Clone, Copy, PartialEq, Eq, Structural)]
pub enum StoreError {
    /// The referenced layout name has no registered layout.
    NotFound,
    /// A layout with the same name (or id, or score key) already exists.
    Conflict,
    /// The store cannot take the statement (for instance, its id space is used up).
    StorageUnavailable,
}

/// Whether a score row belongs to the key (layout id, user).
pub open spec fn same_key(s: Score, layout_id: u64, user: Seq<char>) -> bool {
    s.layout_id == layout_id && s.user@ == user
}

/// The layouts and the scores, with one score per (layout, user) key.
pub struct Scoreboard {
    pub(crate) layouts: Vec<Layout>,
    pub(crate) scores: Vec<Score>,
    pub(crate) next_id: u64,
}

impl Scoreboard {
    /// The registered layouts, in order of registration.
    pub closed spec fn layouts_seq(&self) -> Seq<Layout> {
        self.layouts@
    }

    /// The score rows, in storage order.
    pub closed spec fn scores_seq(&self) -> Seq<Score> {
        self.scores@
    }

    /// The id that the next registration receives.
    pub closed spec fn next_layout_id(&self) -> u64 {
        self.next_id
    }

    /// The abstract views are the fields themselves.
    pub(crate) proof fn lemma_fields(&self)
        ensures
            self.layouts_seq() == self.layouts@,
            self.scores_seq() == self.scores@,
            self.next_layout_id() == self.next_id,
    {
    }

    /// Whether a layout with this stored name exists.
    pub open spec fn has_name(&self, name: Seq<char>) -> bool {
        exists|k: int| 0 <= k < self.layouts_seq().len() && #[trigger] self.layouts_seq()[k].name@ == name
    }

    /// Whether a layout with this id exists.
    pub open spec fn has_id(&self, id: u64) -> bool {
        exists|k: int| 0 <= k < self.layouts_seq().len() && #[trigger] self.layouts_seq()[k].id == id
    }

    /// Whether a score row exists for this key.
    pub open spec fn has_key(&self, layout_id: u64, user: Seq<char>) -> bool {
        exists|k: int| 0 <= k < self.scores_seq().len() && same_key(#[trigger] self.scores_seq()[k], layout_id, user)
    }

    /// The store's invariant: unique layout ids and names, no dangling score,
    /// one score per key, and a fresh next id.
    pub open spec fn wf(&self) -> bool {
        let ls = self.layouts_seq();
        let ss = self.scores_seq();
        &&& forall|i: int, j: int| 0 <= i < ls.len() && 0 <= j < ls.len() && i != j
            ==> #[trigger] ls[i].id != #[trigger] ls[j].id
        &&& forall|i: int, j: int| 0 <= i < ls.len() && 0 <= j < ls.len() && i != j
            ==> #[trigger] ls[i].name@ != #[trigger] ls[j].name@
        &&& forall|i: int| 0 <= i < ls.len() ==> #[trigger] ls[i].id < self.next_layout_id()
        &&& forall|i: int| 0 <= i < ss.len() ==> self.has_id(#[trigger] ss[i].layout_id)
        &&& keys_unique(ss)
    }

    /// An empty store.
    pub fn new() -> (r: Scoreboard)
        ensures
            r.wf(),
            r.layouts_seq().len() == 0,
            r.scores_seq().len() == 0,
            r.next_layout_id() == 1,
    {
        Scoreboard { layouts: Vec::new(), scores: Vec::new(), next_id: 1 }
    }

    /// The registered layouts, in order of registration.
    pub fn layouts(&self) -> (r: &Vec<Layout>)
        ensures
            r@ == self.layouts_seq(),
    {
        &self.layouts
    }

    /// The score rows, in storage order.
    pub fn scores(&self) -> (r: &Vec<Score>)
        ensures
            r@ == self.scores_seq(),
    {
        &self.scores
    }

    /// The number of registered layouts.
    pub fn layout_count(&self) -> (r: usize)
        ensures
            r == self.layouts_seq().len(),
    {
        self.layouts.len()
    }

    /// The number of score rows.
    pub fn score_count(&self) -> (r: usize)
        ensures
            r == self.scores_seq().len(),
    {
        self.scores.len()
    }

    /// The position of the layout whose stored name is `name`.
    pub fn find_name(&self, name: &String) -> (r: Option<usize>)
        ensures
            match r {
                Some(k) => k < self.layouts_seq().len() && self.layouts_seq()[k as int].name@ == name@,
                None => !self.has_name(name@),
            },
    {
        let mut i: usize = 0;
        while i < self.layouts.len()
            invariant
                i <= self.layouts@.len(),
                forall|k: int| 0 <= k < i ==> self.layouts@[k].name@ != name@,
            decreases self.layouts@.len() - i,
        {
            if self.layouts[i].name == *name {
                return Some(i);
            }
            i = i + 1;
        }
        None
    }

    /// The position of the layout with this id.
    pub fn find_id(&self, id: u64) -> (r: Option<usize>)
        ensures
            match r {
                Some(k) => k < self.layouts_seq().len() && self.layouts_seq()[k as int].id == id,
                None => !self.has_id(id),
            },
    {
        let mut i: usize = 0;
        while i < self.layouts.len()
            invariant
                i <= self.layouts@.len(),
                forall|k: int| 0 <= k < i ==> self.layouts@[k].id != id,
            decreases self.layouts@.len() - i,
        {
            if self.layouts[i].id == id {
                return Some(i);
            }
            i = i + 1;
        }
        None
    }

    /// The position of the score row for this key.
    pub fn find_key(&self, layout_id: u64, user: &String) -> (r: Option<usize>)
        ensures
            match r {
                Some(k) => k < self.scores_seq().len() && same_key(self.scores_seq()[k as int], layout_id, user@),
                None => !self.has_key(layout_id, user@),
            },
    {
        let mut i: usize = 0;
        while i < self.scores.len()
            invariant
                i <= self.scores@.len(),
                forall|k: int| 0 <= k < i ==> !same_key(self.scores@[k], layout_id, user@),
            decreases self.scores@.len() - i,
        {
            if self.scores[i].layout_id == layout_id && self.scores[i].user == *user {
                return Some(i);
            }
            i = i + 1;
        }
        None
    }

    /// Registers a layout under an already lowercased name. The first layout with a
    /// name wins: a second one is refused with `Conflict` and changes nothing.
    pub fn register_lowered(
        &mut self,
        name: String,
        creator: String,
        magic: bool,
        thumb_alpha: bool,
        focus: String,
    ) -> (r: Result<u64, StoreError>)
        requires
            old(self).wf(),
        ensures
            final(self).wf(),
            old(self).has_name(name@) ==> r == Err::<u64, StoreError>(StoreError::Conflict),
            !old(self).has_name(name@) && old(self).next_layout_id() == u64::MAX
                ==> r == Err::<u64, StoreError>(StoreError::StorageUnavailable),
            !old(self).has_name(name@) && old(self).next_layout_id() < u64::MAX ==> {
                &&& r == Ok::<u64, StoreError>(old(self).next_layout_id())
                &&& final(self).layouts_seq() == old(self).layouts_seq().push(
                    (Layout { id: old(self).next_layout_id(), name, creator, magic, thumb_alpha, focus }),
                )
                &&& final(self).scores_seq() == old(self).scores_seq()
                &&& final(self).next_layout_id() == old(self).next_layout_id() + 1
            },
            r is Err ==> *final(self) == *old(self),
    {
        if self.find_name(&name).is_some() {
            return Err(StoreError::Conflict);
        }
        if self.next_id == u64::MAX {
            return Err(StoreError::StorageUnavailable);
        }
        let id = self.next_id;
        proof {
            self.lemma_fields();
            if self.has_id(id) {
                let k = choose|k: int| 0 <= k < self.layouts_seq().len() && #[trigger] self.layouts_seq()[k].id == id;
                assert(self.layouts_seq()[k].id < self.next_id);
            }
        }
        let added = self.add_layout(Layout { id, name, creator, magic, thumb_alpha, focus });
        assert(added is Ok);
        Ok(id)
    }

    /// Registers a layout; its name is stored lowercased, so names that differ
    /// only by case are one name.
    pub fn register_layout(
        &mut self,
        name: &str,
        creator: String,
        magic: bool,
        thumb_alpha: bool,
        focus: String,
    ) -> (r: Result<u64, StoreError>)
        requires
            old(self).wf(),
        ensures
            final(self).wf(),
            old(self).has_name(lower_of(name@)) ==> r == Err::<u64, StoreError>(StoreError::Conflict),
            !old(self).has_name(lower_of(name@)) && old(self).next_layout_id() == u64::MAX
                ==> r == Err::<u64, StoreError>(StoreError::StorageUnavailable),
            !old(self).has_name(lower_of(name@)) && old(self).next_layout_id() < u64::MAX ==> {
                &&& r == Ok::<u64, StoreError>(old(self).next_layout_id())
                &&& final(self).layouts_seq().len() == old(self).layouts_seq().len() + 1
                &&& final(self).layouts_seq().drop_last() == old(self).layouts_seq()
                &&& final(self).layouts_seq().last().id == old(self).next_layout_id()
                &&& final(self).layouts_seq().last().name@ == lower_of(name@)
                &&& final(self).layouts_seq().last().creator == creator
                &&& final(self).layouts_seq().last().magic == magic
                &&& final(self).layouts_seq().last().thumb_alpha == thumb_alpha
                &&& final(self).layouts_seq().last().focus == focus
                &&& final(self).scores_seq() == old(self).scores_seq()
                &&& final(self).next_layout_id() == old(self).next_layout_id() + 1
            },
            r is Err ==> *final(self) == *old(self),
    {
        let lowered = lowercase(name);
        let r = self.register_lowered(lowered, creator, magic, thumb_alpha, focus);
        proof {
            if r is Ok {
                assert(self.layouts_seq().drop_last() =~= old(self).layouts_seq());
            }
        }
        r
    }

    /// Submits a score under an already lowercased layout name: the row for
    /// (layout, user) is replaced, or added when there is none.
    pub fn submit_lowered(&mut self, user: String, name: &String, speed: u16) -> (r: Result<u64, StoreError>)
        requires
            old(self).wf(),
        ensures
            final(self).wf(),
            !old(self).has_name(name@) ==> r == Err::<u64, StoreError>(StoreError::NotFound) && *final(self) == *old(self),
            old(self).has_name(name@) ==> exists|k: int| {
                &&& 0 <= k < old(self).layouts_seq().len()
                &&& #[trigger] old(self).layouts_seq()[k].name@ == name@
                &&& r == Ok::<u64, StoreError>(old(self).layouts_seq()[k].id)
                &&& final(self).scores_seq() == with_score(
                    old(self).scores_seq(),
                    (Score { layout_id: old(self).layouts_seq()[k].id, user, speed }),
                )
            },
            final(self).layouts_seq() == old(self).layouts_seq(),
            final(self).next_layout_id() == old(self).next_layout_id(),
    {
        match self.find_name(name) {
            None => Err(StoreError::NotFound),
            Some(k) => {
                let id = self.layouts[k].id;
                let ghost before = self.scores@;
                assert(keys_unique(before));
                assert(self.layouts_seq()[k as int].id == id);
                let row = Score { layout_id: id, user, speed };
                match self.find_key(id, &row.user) {
                    Some(j) => {
                        proof {
                            let c = choose|c: int| 0 <= c < before.len() && same_key(before[c], row.layout_id, row.user@);
                            assert(c == j);
                        }
                        self.scores.remove(j);
                        self.scores.push(row);
                        assert(self.scores@ =~= with_score(before, row));
                    },
                    None => {
                        self.scores.push(row);
                        assert(self.scores@ =~= with_score(before, row));
                    },
                }
                proof {
                    lemma_with_score_keys(before, row);
                    assert(self.layouts_seq()[k as int].id == id);
                    assert(self.has_id(id));
                    assert forall|i: int| 0 <= i < self.scores@.len() implies self.has_id(#[trigger] self.scores@[i].layout_id) by {
                        if i < self.scores@.len() - 1 {
                            let c = choose|c: int| 0 <= c < before.len() && #[trigger] before[c] == self.scores@[i];
                            assert(self.has_id(before[c].layout_id));
                        }
                    }
                }
                Ok(id)
            },
        }
    }

    /// Submits a score for the layout whose name matches `name` case-insensitively.
    pub fn submit_score(&mut self, user: String, name: &str, speed: u16) -> (r: Result<u64, StoreError>)
        requires
            old(self).wf(),
        ensures
            final(self).wf(),
            !old(self).has_name(lower_of(name@)) ==> r == Err::<u64, StoreError>(StoreError::NotFound)
                && *final(self) == *old(self),
            old(self).has_name(lower_of(name@)) ==> exists|k: int| {
                &&& 0 <= k < old(self).layouts_seq().len()
                &&& #[trigger] old(self).layouts_seq()[k].name@ == lower_of(name@)
                &&& r == Ok::<u64, StoreError>(old(self).layouts_seq()[k].id)
                &&& final(self).scores_seq() == with_score(
                    old(self).scores_seq(),
                    (Score { layout_id: old(self).layouts_seq()[k].id, user, speed }),
                )
            },
            final(self).layouts_seq() == old(self).layouts_seq(),
            final(self).next_layout_id() == old(self).next_layout_id(),
    {
        let lowered = lowercase(name);
        self.submit_lowered(user, &lowered, speed)
    }

    /// Takes back a layout row kept by the persistent store. A row whose id or name
    /// is already present is refused with `Conflict`; the largest id is refused with
    /// `StorageUnavailable`, as no id would be left after it.
    pub fn add_layout(&mut self, layout: Layout) -> (r: Result<(), StoreError>)
        requires
            old(self).wf(),
        ensures
            final(self).wf(),
            old(self).has_id(layout.id) || old(self).has_name(layout.name@)
                ==> r == Err::<(), StoreError>(StoreError::Conflict),
            !old(self).has_id(layout.id) && !old(self).has_name(layout.name@) && layout.id == u64::MAX
                ==> r == Err::<(), StoreError>(StoreError::StorageUnavailable),
            !old(self).has_id(layout.id) && !old(self).has_name(layout.name@) && layout.id < u64::MAX ==> {
                &&& r == Ok::<(), StoreError>(())
                &&& final(self).layouts_seq() == old(self).layouts_seq().push(layout)
                &&& final(self).scores_seq() == old(self).scores_seq()
                &&& final(self).next_layout_id() == if layout.id < old(self).next_layout_id() {
                    old(self).next_layout_id()
                } else {
                    (layout.id + 1) as u64
                }
            },
            r is Err ==> *final(self) == *old(self),
    {
        if self.find_id(layout.id).is_some() || self.find_name(&layout.name).is_some() {
            return Err(StoreError::Conflict);
        }
        if layout.id == u64::MAX {
            return Err(StoreError::StorageUnavailable);
        }
        let ghost before = self.layouts@;
        let id = layout.id;
        proof {
            self.lemma_fields();
            assert forall|i: int| 0 <= i < before.len() implies #[trigger] before[i].name@ != layout.name@
                && before[i].id != id by {
                if before[i].name@ == layout.name@ {
                    assert(old(self).layouts_seq()[i].name@ == layout.name@);
                }
                if before[i].id == id {
                    assert(old(self).layouts_seq()[i].id == id);
                }
            }
        }
        self.layouts.push(layout);
        if id >= self.next_id {
            self.next_id = id + 1;
        }
        let ghost ls = self.layouts@;
        assert forall|i: int, j: int| 0 <= i < ls.len() && 0 <= j < ls.len() && i != j
            implies #[trigger] ls[i].id != #[trigger] ls[j].id && ls[i].name@ != ls[j].name@ by {
            if i < before.len() && j < before.len() {
                assert(ls[i] == before[i] && ls[j] == before[j]);
                assert(old(self).layouts_seq()[i].id != old(self).layouts_seq()[j].id);
                assert(old(self).layouts_seq()[i].name@ != old(self).layouts_seq()[j].name@);
            } else if i < before.len() {
                assert(ls[i] == before[i]);
            } else {
                assert(ls[j] == before[j]);
            }
        }
        assert forall|i: int, j: int| 0 <= i < ls.len() && 0 <= j < ls.len() && i != j
            implies #[trigger] ls[i].name@ != #[trigger] ls[j].name@ by {
            assert(ls[i].id != ls[j].id);
        }
        assert forall|i: int| 0 <= i < ls.len() implies #[trigger] ls[i].id < self.next_id by {
            if i < before.len() {
                assert(ls[i] == old(self).layouts_seq()[i]);
            }
        }
        assert forall|i: int| 0 <= i < self.scores@.len() implies self.has_id(#[trigger] self.scores@[i].layout_id) by {
            assert(old(self).has_id(self.scores@[i].layout_id));
            let k = choose|k: int| 0 <= k < before.len() && #[trigger] before[k].id == self.scores@[i].layout_id;
            assert(self.layouts_seq()[k].id == self.scores@[i].layout_id);
        }
        Ok(())
    }

    /// Takes back a score row kept by the persistent store. A row for an unknown
    /// layout is refused with `NotFound`, a second row for one key with `Conflict`.
    pub fn add_score(&mut self, score: Score) -> (r: Result<(), StoreError>)
        requires
            old(self).wf(),
        ensures
            final(self).wf(),
            !old(self).has_id(score.layout_id) ==> r == Err::<(), StoreError>(StoreError::NotFound),
            old(self).has_id(score.layout_id) && old(self).has_key(score.layout_id, score.user@)
                ==> r == Err::<(), StoreError>(StoreError::Conflict),
            old(self).has_id(score.layout_id) && !old(self).has_key(score.layout_id, score.user@) ==> {
                &&& r == Ok::<(), StoreError>(())
                &&& final(self).scores_seq() == old(self).scores_seq().push(score)
            },
            final(self).layouts_seq() == old(self).layouts_seq(),
            final(self).next_layout_id() == old(self).next_layout_id(),
            r is Err ==> *final(self) == *old(self),
    {
        let k = match self.find_id(score.layout_id) {
            None => return Err(StoreError::NotFound),
            Some(k) => k,
        };
        if self.find_key(score.layout_id, &score.user).is_some() {
            return Err(StoreError::Conflict);
        }
        let ghost before = self.scores@;
        proof {
            self.lemma_fields();
            assert(!exists|k: int| 0 <= k < before.len() && same_key(before[k], score.layout_id, score.user@));
            assert(with_score(before, score) == before.push(score));
            lemma_with_score_keys(before, score);
        }
        self.scores.push(score);
        proof {
            assert forall|i: int| 0 <= i < self.scores@.len() implies self.has_id(#[trigger] self.scores@[i].layout_id) by {
                if i < before.len() {
                    assert(self.scores@[i] == before[i]);
                } else {
                    assert(self.layouts_seq()[k as int].id == score.layout_id);
                }
            }
        }
        Ok(())
    }
}

/// Whether a submitted speed is within an optional plausibility limit; with no
/// limit every speed is accepted.
pub fn speed_allowed(speed: u16, limit: Option<u16>) -> (r: bool)
    ensures
        r == match limit {
            Some(m) => speed <= m,
            None => true,
        },
{
    match limit {
        Some(m) => speed <= m,
        None => true,
    }
}

/// Whether no two rows share a (layout, user) key.
pub open spec fn keys_unique(rows: Seq<Score>) -> bool {
    forall|i: int, j: int| 0 <= i < rows.len() && 0 <= j < rows.len() && i != j
        ==> !same_key(#[trigger] rows[i], rows[j].layout_id, #[trigger] rows[j].user@)
}

/// The rows after `row` is stored: the row with its key, if any, is taken out,
/// and `row` goes last.
pub open spec fn with_score(rows: Seq<Score>, row: Score) -> Seq<Score> {
    if exists|k: int| 0 <= k < rows.len() && same_key(rows[k], row.layout_id, row.user@) {
        let k = choose|k: int| 0 <= k < rows.len() && same_key(rows[k], row.layout_id, row.user@);
        rows.remove(k).push(row)
    } else {
        rows.push(row)
    }
}

/// Storing a row keeps the keys unique, and every other row stays.
proof fn lemma_with_score_keys(rows: Seq<Score>, row: Score)
    requires
        keys_unique(rows),
    ensures
        keys_unique(with_score(rows, row)),
        forall|i: int| 0 <= i < with_score(rows, row).len() - 1
            ==> rows.contains(#[trigger] with_score(rows, row)[i]),
        with_score(rows, row).last() == row,
{
    let out = with_score(rows, row);
    if exists|k: int| 0 <= k < rows.len() && same_key(rows[k], row.layout_id, row.user@) {
        let k = choose|k: int| 0 <= k < rows.len() && same_key(rows[k], row.layout_id, row.user@);
        assert forall|i: int| 0 <= i < out.len() - 1 implies rows.contains(#[trigger] out[i]) by {
            if i < k {
                assert(out[i] == rows[i]);
            } else {
                assert(out[i] == rows[i + 1]);
            }
        }
        assert forall|i: int, j: int| 0 <= i < out.len() && 0 <= j < out.len() && i != j
            implies !same_key(#[trigger] out[i], out[j].layout_id, #[trigger] out[j].user@) by {
            let ii = if i < k { i } else { i + 1 };
            let jj = if j < k { j } else { j + 1 };
            if i < out.len() - 1 && j < out.len() - 1 {
                assert(out[i] == rows[ii]);
                assert(out[j] == rows[jj]);
            } else if i == out.len() - 1 {
                assert(out[j] == rows[jj]);
                assert(jj != k);
            } else {
                assert(out[i] == rows[ii]);
                assert(ii != k);
            }
        }
    } else {
        assert forall|i: int| 0 <= i < out.len() - 1 implies rows.contains(#[trigger] out[i]) by {
            assert(out[i] == rows[i]);
        }
        assert forall|i: int, j: int| 0 <= i < out.len() && 0 <= j < out.len() && i != j
            implies !same_key(#[trigger] out[i], out[j].layout_id, #[trigger] out[j].user@) by {
            if i < out.len() - 1 && j < out.len() - 1 {
                assert(out[i] == rows[i]);
                assert(out[j] == rows[j]);
            } else if i == out.len() - 1 {
                assert(out[j] == rows[j]);
            } else {
                assert(out[i] == rows[i]);
            }
        }
    }
}

/// The rows after a user submits the speeds `speeds`, in this order, for one layout.
pub open spec fn with_scores(rows: Seq<Score>, layout_id: u64, user: String, speeds: Seq<u16>) -> Seq<Score>
    decreases speeds.len(),
{
    if speeds.len() == 0 {
        rows
    } else {
        with_score(
            with_scores(rows, layout_id, user, speeds.drop_last()),
            Score { layout_id, user, speed: speeds.last() },
        )
    }
}

/// After any run of submissions by one user for one layout, exactly one row has
/// that key, and it holds the speed submitted last.
pub proof fn lemma_last_submission_wins(rows: Seq<Score>, layout_id: u64, user: String, speeds: Seq<u16>)
    requires
        keys_unique(rows),
        speeds.len() > 0,
    ensures
        ({
            let out = with_scores(rows, layout_id, user, speeds);
            &&& keys_unique(out)
            &&& out.len() > 0
            &&& out.last() == (Score { layout_id, user, speed: speeds.last() })
            &&& forall|i: int| 0 <= i < out.len() && same_key(#[trigger] out[i], layout_id, user@) ==> i == out.len() - 1
        }),
    decreases speeds.len(),
{
    let prev = with_scores(rows, layout_id, user, speeds.drop_last());
    if speeds.len() > 1 {
        lemma_last_submission_wins(rows, layout_id, user, speeds.drop_last());
    }
    let row = Score { layout_id, user, speed: speeds.last() };
    lemma_with_score_keys(prev, row);
    let out = with_scores(rows, layout_id, user, speeds);
    assert(out == with_score(prev, row));
    assert forall|i: int| 0 <= i < out.len() && same_key(#[trigger] out[i], layout_id, user@) implies i == out.len() - 1 by {
        if i != out.len() - 1 {
            assert(!same_key(out[i], out[out.len() - 1].layout_id, out[out.len() - 1].user@));
        }
    }
}

/// Once a layout is registered under `a`, a name `b` that differs from it only by
/// case finds the stored name taken, so its registration is refused with `Conflict`.
pub proof fn lemma_case_variant_taken(board: Scoreboard, a: Seq<char>, b: Seq<char>)
    requires
        board.layouts_seq().len() > 0,
        board.layouts_seq().last().name@ == lower_of(a),
        lower_of(a) == lower_of(b),
    ensures
        board.has_name(lower_of(b)),
{
    let k = board.layouts_seq().len() - 1;
    assert(board.layouts_seq()[k].name@ == lower_of(b));
}

} // verus!
