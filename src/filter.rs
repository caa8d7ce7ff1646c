use vstd::prelude::*;
use crate::rank::Entry;

verus! {

/// What `str::to_lowercase` returns for a string.
pub uninterp spec fn lower_of(s: Seq<char>) -> Seq<char>;

/// Relies on `str::to_lowercase`: the result is a function of the characters alone.
#[verifier::external_body]
pub(crate) fn lowercase(s: &str) -> (r: String)
    ensures
        r@ == lower_of(s@),
{
    s.to_lowercase()
}

/// The identifier inside a mention `<@identifier>`, or the whole text when it is no mention.
pub open spec fn mention_id(s: Seq<char>) -> Seq<char> {
    if s.len() >= 3 && s[0] == '<' && s[1] == '@' && s[s.len() - 1] == '>' {
        s.subrange(2, s.len() - 1)
    } else {
        s
    }
}

/// Strips the mention decoration `<@` ... `>` from a user identifier, if present.
pub fn strip_mention(s: &str) -> (r: String)
    ensures
        r@ == mention_id(s@),
{
    let n = s.unicode_len();
    if n >= 3 && s.get_char(0) == '<' && s.get_char(1) == '@' && s.get_char(n - 1) == '>' {
        s.substring_char(2, n - 1).to_string()
    } else {
        s.to_string()
    }
}

/// The criteria of a leaderboard query; an absent criterion admits every row.
pub struct Filter {
    pub user: Option<String>,
    pub layout: Option<String>,
    pub magic: Option<bool>,
    pub thumb_alpha: Option<bool>,
    pub focus: Option<String>,
    pub creator: Option<String>,
}

/// Whether a text criterion admits a value: absent, or equal to it.
pub open spec fn text_admits(f: Option<String>, v: Seq<char>) -> bool {
    match f {
        Some(x) => x@ == v,
        None => true,
    }
}

/// Whether a flag criterion admits a value: absent, or equal to it.
pub open spec fn flag_admits(f: Option<bool>, v: bool) -> bool {
    match f {
        Some(x) => x == v,
        None => true,
    }
}

/// The raw text of an optional input as a sequence of characters.
pub open spec fn opt_view(s: Option<String>) -> Option<Seq<char>> {
    match s {
        Some(x) => Some(x@),
        None => None,
    }
}

fn text_matches(f: &Option<String>, v: &String) -> (r: bool)
    ensures
        r == text_admits(*f, v@),
{
    match f {
        Some(x) => *x == *v,
        None => true,
    }
}

fn flag_matches(f: Option<bool>, v: bool) -> (r: bool)
    ensures
        r == flag_admits(f, v),
{
    match f {
        Some(x) => x == v,
        None => true,
    }
}

fn strip_opt(s: Option<String>) -> (r: Option<String>)
    ensures
        opt_view(r) == match opt_view(s) {
            Some(x) => Some(mention_id(x)),
            None => None::<Seq<char>>,
        },
{
    match s {
        Some(x) => Some(strip_mention(x.as_str())),
        None => None,
    }
}

impl Filter {
    /// Whether a row meets every criterion that is present.
    pub open spec fn admits(&self, e: Entry) -> bool {
        &&& text_admits(self.user, e.user@)
        &&& text_admits(self.layout, e.layout@)
        &&& flag_admits(self.magic, e.magic)
        &&& flag_admits(self.thumb_alpha, e.thumb_alpha)
        &&& text_admits(self.focus, e.focus@)
        &&& text_admits(self.creator, e.creator@)
    }

    /// Whether no criterion is present.
    pub open spec fn is_open(&self) -> bool {
        self.user is None && self.layout is None && self.magic is None && self.thumb_alpha is None
            && self.focus is None && self.creator is None
    }

    /// A filter with no criterion.
    pub fn open() -> (r: Filter)
        ensures
            r.is_open(),
    {
        Filter { user: None, layout: None, magic: None, thumb_alpha: None, focus: None, creator: None }
    }

    /// Tests one row against the criteria.
    pub fn admits_entry(&self, e: &Entry) -> (r: bool)
        ensures
            r == self.admits(*e),
    {
        text_matches(&self.user, &e.user) && text_matches(&self.layout, &e.layout) && flag_matches(self.magic, e.magic)
            && flag_matches(self.thumb_alpha, e.thumb_alpha) && text_matches(&self.focus, &e.focus)
            && text_matches(&self.creator, &e.creator)
    }

    /// Turns raw query input into criteria: mentions are stripped from the user and
    /// the creator, each on its own; the layout name is lowercased; the rest pass through.
    pub fn normalize(
        user: Option<String>,
        layout: Option<String>,
        magic: Option<bool>,
        thumb_alpha: Option<bool>,
        focus: Option<String>,
        creator: Option<String>,
    ) -> (r: Filter)
        ensures
            opt_view(r.user) == match opt_view(user) {
                Some(x) => Some(mention_id(x)),
                None => None::<Seq<char>>,
            },
            opt_view(r.creator) == match opt_view(creator) {
                Some(x) => Some(mention_id(x)),
                None => None::<Seq<char>>,
            },
            opt_view(r.layout) == match opt_view(layout) {
                Some(x) => Some(lower_of(x)),
                None => None::<Seq<char>>,
            },
            r.magic == magic,
            r.thumb_alpha == thumb_alpha,
            r.focus == focus,
    {
        let layout = match layout {
            Some(x) => Some(lowercase(x.as_str())),
            None => None,
        };
        Filter { user: strip_opt(user), layout, magic, thumb_alpha, focus, creator: strip_opt(creator) }
    }
}

} // verus!
