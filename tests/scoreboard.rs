use garf::filter::{strip_mention, Filter};
use garf::pages::paginate;
use garf::rank::Entry;
use garf::store::{speed_allowed, Layout, Score, Scoreboard, StoreError};

fn board_with(names: &[&str]) -> Scoreboard {
    let mut b = Scoreboard::new();
    for n in names {
        b.register_layout(n, "U1".to_string(), false, false, "alt".to_string()).unwrap();
    }
    b
}

fn users(rows: &[Entry]) -> Vec<(String, u16)> {
    rows.iter().map(|e| (e.user.clone(), e.speed)).collect()
}

#[test]
fn example_scenario() {
    let mut b = Scoreboard::new();
    assert_eq!(b.register_layout("qwerty", "U1".to_string(), false, false, "alt".to_string()), Ok(1));
    assert_eq!(b.submit_score("U2".to_string(), "qwerty", 80), Ok(1));
    assert_eq!(b.submit_score("U2".to_string(), "qwerty", 95), Ok(1));
    let rows = b.query(&Filter::open());
    assert_eq!(rows.len(), 1);
    assert_eq!(rows[0].user, "U2");
    assert_eq!(rows[0].speed, 95);
    assert_eq!(rows[0].layout, "qwerty");
    assert_eq!(b.submit_score("U2".to_string(), "dvorak", 100), Err(StoreError::NotFound));
    assert_eq!(b.score_count(), 1);
    let rows = b.query(&Filter::open());
    assert_eq!(users(&rows), vec![("U2".to_string(), 95)]);
}

#[test]
fn resubmission_keeps_one_row_with_last_speed() {
    let mut b = board_with(&["qwerty", "dvorak"]);
    for s in [50u16, 120, 70, 90] {
        b.submit_score("U2".to_string(), "qwerty", s).unwrap();
    }
    b.submit_score("U3".to_string(), "qwerty", 60).unwrap();
    b.submit_score("U2".to_string(), "dvorak", 40).unwrap();
    let mine: Vec<&Score> = b.scores().iter().filter(|s| s.user == "U2" && s.layout_id == 1).collect();
    assert_eq!(mine.len(), 1);
    assert_eq!(mine[0].speed, 90);
    assert_eq!(b.score_count(), 3);
}

#[test]
fn resubmission_moves_row_to_end_of_storage() {
    let mut b = board_with(&["qwerty"]);
    b.submit_score("A".to_string(), "qwerty", 70).unwrap();
    b.submit_score("B".to_string(), "qwerty", 70).unwrap();
    b.submit_score("A".to_string(), "qwerty", 70).unwrap();
    let rows = b.query(&Filter::open());
    assert_eq!(users(&rows), vec![("B".to_string(), 70), ("A".to_string(), 70)]);
}

#[test]
fn submission_matches_layout_name_ignoring_case() {
    let mut b = board_with(&["Colemak"]);
    assert_eq!(b.layouts()[0].name, "colemak");
    assert_eq!(b.submit_score("U".to_string(), "COLEMAK", 88), Ok(1));
    assert_eq!(b.scores()[0].layout_id, 1);
}

#[test]
fn unknown_layout_is_not_found_and_changes_nothing() {
    let mut b = board_with(&["qwerty"]);
    b.submit_score("U".to_string(), "qwerty", 60).unwrap();
    assert_eq!(b.submit_score("U".to_string(), "dvorak", 61), Err(StoreError::NotFound));
    assert_eq!(b.score_count(), 1);
    assert_eq!(b.scores()[0].speed, 60);
}

#[test]
fn case_variant_registration_conflicts() {
    let mut b = Scoreboard::new();
    assert_eq!(b.register_layout("qwerty", "U1".to_string(), false, false, "alt".to_string()), Ok(1));
    assert_eq!(
        b.register_layout("QwErTy", "U9".to_string(), true, true, "sfb".to_string()),
        Err(StoreError::Conflict)
    );
    assert_eq!(b.layout_count(), 1);
    assert_eq!(b.layouts()[0].creator, "U1");
    assert!(!b.layouts()[0].magic);
    assert_eq!(b.register_layout("dvorak", "U1".to_string(), false, false, "alt".to_string()), Ok(2));
}

#[test]
fn register_lowered_keeps_fields() {
    let mut b = Scoreboard::new();
    assert_eq!(b.register_lowered("semimak".to_string(), "C".to_string(), true, false, "inroll".to_string()), Ok(1));
    let l = &b.layouts()[0];
    assert_eq!((l.id, l.name.as_str(), l.creator.as_str(), l.magic, l.thumb_alpha, l.focus.as_str()), (1, "semimak", "C", true, false, "inroll"));
    assert_eq!(b.submit_lowered("U".to_string(), &"semimak".to_string(), 5), Ok(1));
    assert_eq!(b.submit_lowered("U".to_string(), &"SEMIMAK".to_string(), 5), Err(StoreError::NotFound));
}

#[test]
fn ranking_is_by_speed_descending_ties_in_storage_order() {
    let mut b = board_with(&["qwerty", "dvorak"]);
    b.submit_score("A".to_string(), "qwerty", 80).unwrap();
    b.submit_score("B".to_string(), "dvorak", 100).unwrap();
    b.submit_score("C".to_string(), "qwerty", 80).unwrap();
    b.submit_score("D".to_string(), "dvorak", 120).unwrap();
    b.submit_score("E".to_string(), "dvorak", 80).unwrap();
    let first = b.query(&Filter::open());
    let expected = vec![
        ("D".to_string(), 120),
        ("B".to_string(), 100),
        ("A".to_string(), 80),
        ("C".to_string(), 80),
        ("E".to_string(), 80),
    ];
    assert_eq!(users(&first), expected);
    let second = b.query(&Filter::open());
    assert_eq!(users(&second), expected);
    assert_eq!(first[1].layout, "dvorak");
}

#[test]
fn empty_query_is_empty_not_an_error() {
    let b = board_with(&["qwerty"]);
    assert!(b.query(&Filter::open()).is_empty());
    let mut f = Filter::open();
    f.user = Some("nobody".to_string());
    assert!(b.query(&f).is_empty());
}

fn filter_board() -> Scoreboard {
    let mut b = Scoreboard::new();
    b.register_layout("qwerty", "C1".to_string(), false, false, "alt".to_string()).unwrap();
    b.register_layout("magicy", "C2".to_string(), true, false, "sfb".to_string()).unwrap();
    b.register_layout("thumby", "C1".to_string(), true, true, "inroll".to_string()).unwrap();
    b.submit_score("U1".to_string(), "qwerty", 90).unwrap();
    b.submit_score("U1".to_string(), "magicy", 95).unwrap();
    b.submit_score("U2".to_string(), "thumby", 85).unwrap();
    b.submit_score("U2".to_string(), "qwerty", 99).unwrap();
    b
}

#[test]
fn filters_apply_conjunctively() {
    let b = filter_board();
    let f = Filter::normalize(Some("<@U1>".to_string()), None, Some(true), None, None, None);
    assert_eq!(users(&b.query(&f)), vec![("U1".to_string(), 95)]);
    let f = Filter::normalize(None, None, Some(true), None, None, Some("C1".to_string()));
    let rows = b.query(&f);
    assert_eq!(users(&rows), vec![("U2".to_string(), 85)]);
    assert_eq!(rows[0].layout, "thumby");
    let f = Filter::normalize(None, Some("QWERTY".to_string()), None, None, None, None);
    assert_eq!(users(&b.query(&f)), vec![("U2".to_string(), 99), ("U1".to_string(), 90)]);
    let f = Filter::normalize(None, None, None, Some(false), Some("alt".to_string()), None);
    assert_eq!(b.query(&f).len(), 2);
    let f = Filter::normalize(Some("U1".to_string()), None, None, Some(true), None, None);
    assert!(b.query(&f).is_empty());
}

#[test]
fn every_returned_row_meets_every_criterion() {
    let b = filter_board();
    let f = Filter::normalize(None, None, Some(false), Some(false), None, Some("<@C1>".to_string()));
    let rows = b.query(&f);
    assert_eq!(rows.len(), 2);
    for r in &rows {
        assert!(!r.magic && !r.thumb_alpha && r.creator == "C1");
        assert!(f.admits_entry(r));
    }
}

#[test]
fn normalize_strips_mentions_independently() {
    let f = Filter::normalize(Some("<@123>".to_string()), Some("Dvorak".to_string()), Some(false), None, Some("alt".to_string()), Some("456".to_string()));
    assert_eq!(f.user.as_deref(), Some("123"));
    assert_eq!(f.creator.as_deref(), Some("456"));
    assert_eq!(f.layout.as_deref(), Some("dvorak"));
    assert_eq!(f.magic, Some(false));
    assert_eq!(f.thumb_alpha, None);
    assert_eq!(f.focus.as_deref(), Some("alt"));
    let g = Filter::normalize(None, None, None, None, None, Some("<@789>".to_string()));
    assert_eq!(g.user, None);
    assert_eq!(g.creator.as_deref(), Some("789"));
}

#[test]
fn malformed_mentions_pass_through() {
    assert_eq!(strip_mention("<@123"), "<@123");
    assert_eq!(strip_mention("@123>"), "@123>");
    assert_eq!(strip_mention("<123>"), "<123>");
    assert_eq!(strip_mention("<@>"), "");
    assert_eq!(strip_mention("<@é>"), "é");
    assert_eq!(strip_mention(""), "");
}

fn entries(n: usize) -> Vec<Entry> {
    (0..n)
        .map(|i| Entry {
            user: format!("U{}", i),
            speed: (1000 - i) as u16,
            layout: "qwerty".to_string(),
            magic: false,
            thumb_alpha: false,
            focus: "alt".to_string(),
            creator: "C".to_string(),
        })
        .collect()
}

#[test]
fn pages_number_ranks_continuously() {
    let rows = entries(25);
    let pages = paginate(&rows);
    assert_eq!(pages.len(), 3);
    assert_eq!(pages.iter().map(|p| p.len()).collect::<Vec<_>>(), vec![10, 10, 5]);
    for (k, page) in pages.iter().enumerate() {
        for (j, line) in page.iter().enumerate() {
            let r = 10 * k + j + 1;
            assert_eq!(line.rank, r);
            assert_eq!(line.user, format!("U{}", r - 1));
            assert_eq!(line.speed, (1000 - (r - 1)) as u16);
            assert_eq!(line.layout, "qwerty");
        }
    }
}

#[test]
fn no_rows_give_one_empty_page() {
    let pages = paginate(&Vec::new());
    assert_eq!(pages.len(), 1);
    assert!(pages[0].is_empty());
}

#[test]
fn exactly_ten_rows_fill_one_page() {
    let pages = paginate(&entries(10));
    assert_eq!(pages.len(), 1);
    assert_eq!(pages[0].len(), 10);
    assert_eq!(pages[0][9].rank, 10);
    let pages = paginate(&entries(11));
    assert_eq!(pages.len(), 2);
    assert_eq!(pages[1].len(), 1);
    assert_eq!(pages[1][0].rank, 11);
}

#[test]
fn stored_rows_are_taken_back() {
    let mut b = Scoreboard::new();
    let l = |id: u64, name: &str| Layout {
        id,
        name: name.to_string(),
        creator: "C".to_string(),
        magic: false,
        thumb_alpha: false,
        focus: "alt".to_string(),
    };
    assert_eq!(b.add_layout(l(7, "qwerty")), Ok(()));
    assert_eq!(b.add_layout(l(7, "other")), Err(StoreError::Conflict));
    assert_eq!(b.add_layout(l(8, "qwerty")), Err(StoreError::Conflict));
    assert_eq!(b.add_layout(l(u64::MAX, "big")), Err(StoreError::StorageUnavailable));
    assert_eq!(b.layout_count(), 1);
    let s = |id: u64, user: &str, speed: u16| Score { layout_id: id, user: user.to_string(), speed };
    assert_eq!(b.add_score(s(7, "U", 50)), Ok(()));
    assert_eq!(b.add_score(s(7, "U", 60)), Err(StoreError::Conflict));
    assert_eq!(b.add_score(s(3, "U", 60)), Err(StoreError::NotFound));
    assert_eq!(b.score_count(), 1);
    assert_eq!(b.register_layout("dvorak", "C".to_string(), false, false, "alt".to_string()), Ok(8));
    assert_eq!(b.submit_score("U".to_string(), "qwerty", 65), Ok(7));
    assert_eq!(b.scores()[0].speed, 65);
}

#[test]
fn exhausted_ids_refuse_registration() {
    let mut b = Scoreboard::new();
    let big = Layout {
        id: u64::MAX - 1,
        name: "last".to_string(),
        creator: "C".to_string(),
        magic: false,
        thumb_alpha: false,
        focus: "alt".to_string(),
    };
    assert_eq!(b.add_layout(big), Ok(()));
    assert_eq!(
        b.register_layout("new", "C".to_string(), false, false, "alt".to_string()),
        Err(StoreError::StorageUnavailable)
    );
    assert_eq!(
        b.register_layout("LAST", "C".to_string(), false, false, "alt".to_string()),
        Err(StoreError::Conflict)
    );
    assert_eq!(b.layout_count(), 1);
}

#[test]
fn speed_limit_hook() {
    assert!(speed_allowed(300, None));
    assert!(speed_allowed(250, Some(250)));
    assert!(!speed_allowed(251, Some(250)));
}
