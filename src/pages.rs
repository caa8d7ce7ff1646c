use vstd::prelude::*;
use crate::rank::Entry;

verus! {

/// The number of lines on a full page.
pub const PAGE_SIZE: usize = 10;

/// One leaderboard line: a row with its rank, counted from 1 over all pages.
pub struct Line {
    pub rank: usize,
    pub speed: u16,
    pub user: String,
    pub layout: String,
}

/// The number of pages for `n` rows: at least one, so that an empty board still shows.
pub open spec fn page_count(n: int) -> int {
    if n == 0 {
        1
    } else {
        (n + 9) / 10
    }
}

/// The number of lines on page `k` (from 0) for `n` rows.
pub open spec fn page_len(n: int, k: int) -> int {
    if n - 10 * k >= 10 {
        10
    } else {
        n - 10 * k
    }
}

/// The line for row `i` (from 0) of the ranked rows.
pub open spec fn line_for(rows: Seq<Entry>, i: int) -> Line {
    Line { rank: (i + 1) as usize, speed: rows[i].speed, user: rows[i].user, layout: rows[i].layout }
}

/// The pages as sequences of lines.
pub open spec fn pages_view(pages: Seq<Vec<Line>>) -> Seq<Seq<Line>> {
    pages.map_values(|p: Vec<Line>| p@)
}

/// Whether `pages` splits the rows into pages of ten lines, numbered on across pages.
pub open spec fn paged(pages: Seq<Seq<Line>>, rows: Seq<Entry>) -> bool {
    &&& pages.len() == page_count(rows.len() as int)
    &&& forall|k: int| 0 <= k < pages.len() ==> #[trigger] pages[k].len() == page_len(rows.len() as int, k)
    &&& forall|k: int, j: int| 0 <= k < pages.len() && 0 <= j < pages[k].len()
        ==> #[trigger] pages[k][j] == line_for(rows, 10 * k + j)
}

/// Splits ranked rows into pages of `PAGE_SIZE` lines.
pub fn paginate(rows: &Vec<Entry>) -> (r: Vec<Vec<Line>>)
    ensures
        paged(pages_view(r@), rows@),
{
    let n = rows.len();
    let mut pages: Vec<Vec<Line>> = Vec::new();
    let mut page: Vec<Line> = Vec::new();
    let mut i: usize = 0;
    while i < n
        invariant
            n == rows@.len(),
            i <= n,
            10 * pages@.len() + page@.len() == i,
            page@.len() < 10,
            forall|k: int| 0 <= k < pages@.len() ==> #[trigger] pages@[k]@.len() == 10,
            forall|k: int, j: int| 0 <= k < pages@.len() && 0 <= j < pages@[k]@.len()
                ==> #[trigger] pages@[k]@[j] == line_for(rows@, 10 * k + j),
            forall|j: int| 0 <= j < page@.len() ==> #[trigger] page@[j] == line_for(rows@, 10 * pages@.len() + j),
        decreases n - i,
    {
        let row = &rows[i];
        page.push(Line { rank: i + 1, speed: row.speed, user: row.user.clone(), layout: row.layout.clone() });
        if page.len() == PAGE_SIZE {
            pages.push(page);
            page = Vec::new();
        }
        i = i + 1;
    }
    if page.len() > 0 || pages.len() == 0 {
        pages.push(page);
    }
    let ghost v = pages_view(pages@);
    assert(v.len() == page_count(n as int));
    assert forall|k: int| 0 <= k < v.len() implies #[trigger] v[k].len() == page_len(n as int, k) by {
        assert(v[k] == pages@[k]@);
    }
    assert forall|k: int, j: int| 0 <= k < v.len() && 0 <= j < v[k].len()
        implies #[trigger] v[k][j] == line_for(rows@, 10 * k + j) by {
        assert(v[k] == pages@[k]@);
    }
    pages
}

/// Page `k`, counted from 1, holds the global ranks `10(k-1)+1` to `min(10k, n)`.
pub proof fn lemma_page_ranks(pages: Seq<Seq<Line>>, rows: Seq<Entry>, k: int)
    requires
        paged(pages, rows),
        rows.len() <= usize::MAX,
        1 <= k <= pages.len(),
    ensures
        pages[k - 1].len() == (if 10 * k <= rows.len() { 10 * k } else { rows.len() as int }) - 10 * (k - 1),
        forall|j: int| 0 <= j < pages[k - 1].len() ==> (#[trigger] pages[k - 1][j]).rank == 10 * (k - 1) + 1 + j,
{
    let n = rows.len() as int;
    assert(pages[k - 1].len() == page_len(n, k - 1));
    assert(10 * (k - 1) <= n);
    assert forall|j: int| 0 <= j < pages[k - 1].len() implies (#[trigger] pages[k - 1][j]).rank == 10 * (k - 1) + 1 + j by {
        assert(pages[k - 1][j] == line_for(rows, 10 * (k - 1) + j));
    }
}

/// No rows give exactly one page, with no line.
pub proof fn lemma_empty_board(pages: Seq<Seq<Line>>, rows: Seq<Entry>)
    requires
        paged(pages, rows),
        rows.len() == 0,
    ensures
        pages.len() == 1,
        pages[0].len() == 0,
{
    assert(pages[0].len() == page_len(0, 0));
}

} // verus!
