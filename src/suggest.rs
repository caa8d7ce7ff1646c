use vstd::prelude::*;
use crate::filter::{lower_of, lowercase};

verus! {

/// Whether `needle` occurs in `hay` as a contiguous run of characters.
pub open spec fn infix_of(needle: Seq<char>, hay: Seq<char>) -> bool {
    exists|i: int| 0 <= i <= hay.len() - needle.len() && #[trigger] hay.subrange(i, i + needle.len()) == needle
}

/// Relies on `str::contains` with a `&str` pattern: true exactly when `needle` is a
/// substring of `hay`.
#[verifier::external_body]
fn contains_text(hay: &str, needle: &str) -> (r: bool)
    ensures
        r == infix_of(needle@, hay@),
{
    hay.contains(needle)
}

/// Whether a candidate is offered for what the user has typed so far: the typed text
/// occurs in the candidate, both lowercased.
pub open spec fn offered(candidate: Seq<char>, typed: Seq<char>) -> bool {
    infix_of(lower_of(typed), lower_of(candidate))
}

/// The candidates offered for the typed text, in their order.
pub open spec fn suggestions(candidates: Seq<String>, typed: Seq<char>) -> Seq<Seq<char>> {
    candidates.map_values(|c: String| c@).filter(|c: Seq<char>| offered(c, typed))
}

/// Offers the candidates that contain the typed text, ignoring case.
pub fn suggest(candidates: &Vec<String>, typed: &str) -> (r: Vec<String>)
    ensures
        r@.map_values(|c: String| c@) == suggestions(candidates@, typed@),
{
    let needle = lowercase(typed);
    let ghost all = candidates@.map_values(|c: String| c@);
    let mut out: Vec<String> = Vec::new();
    let mut i: usize = 0;
    while i < candidates.len()
        invariant
            i <= candidates@.len(),
            needle@ == lower_of(typed@),
            all == candidates@.map_values(|c: String| c@),
            out@.map_values(|c: String| c@) == all.take(i as int).filter(|c: Seq<char>| offered(c, typed@)),
        decreases candidates@.len() - i,
    {
        let ghost before = out@;
        let c = &candidates[i];
        let lowered = lowercase(c.as_str());
        proof {
            reveal_with_fuel(Seq::filter, 1);
            assert(all.take(i + 1).drop_last() =~= all.take(i as int));
            assert(all.take(i + 1).last() == c@);
        }
        if contains_text(lowered.as_str(), needle.as_str()) {
            out.push(c.clone());
            assert(out@.map_values(|c: String| c@) =~= before.map_values(|c: String| c@).push(c@));
        }
        i = i + 1;
    }
    assert(all.take(i as int) =~= all);
    out
}

/// The advisory focus categories of a layout.
pub fn focus_categories() -> (r: Vec<String>)
    ensures
        r@.map_values(|c: String| c@) == seq![
            "sfb"@, "sfs"@, "alt"@, "inroll"@, "outroll"@, "onehands"@, "redirects"@,
        ],
{
    let r = vec![
        "sfb".to_string(),
        "sfs".to_string(),
        "alt".to_string(),
        "inroll".to_string(),
        "outroll".to_string(),
        "onehands".to_string(),
        "redirects".to_string(),
    ];
    assert(r@.map_values(|c: String| c@) =~= seq![
        "sfb"@, "sfs"@, "alt"@, "inroll"@, "outroll"@, "onehands"@, "redirects"@,
    ]);
    r
}

/// Offers the focus categories that contain the typed text, ignoring case.
pub fn suggest_focus(typed: &str) -> (r: Vec<String>)
    ensures
        r@.map_values(|c: String| c@) == seq![
            "sfb"@, "sfs"@, "alt"@, "inroll"@, "outroll"@, "onehands"@, "redirects"@,
        ].filter(|c: Seq<char>| offered(c, typed@)),
{
    let all = focus_categories();
    let r = suggest(&all, typed);
    r
}

} // verus!
