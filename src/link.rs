use vstd::prelude::*;
use vstd::string::*;

use crate::error::{is_invalid_link, Error, NodeId};

verus! {

/// Number of occurrences of `c` in `s`.
pub open spec fn count_of(s: Seq<char>, c: char) -> nat
    decreases s.len(),
{
    if s.len() == 0 {
        0
    } else {
        count_of(s.drop_last(), c) + if s.last() == c { 1nat } else { 0nat }
    }
}

/// Position of the first `c` in `s`, or -1 where there is none.
pub open spec fn index_of(s: Seq<char>, c: char) -> int
    decreases s.len(),
{
    if s.len() == 0 {
        -1
    } else {
        let r = index_of(s.drop_last(), c);
        if r >= 0 {
            r
        } else if s.last() == c {
            s.len() - 1
        } else {
            -1
        }
    }
}

/// `index_of` gives the first occurrence, or -1 where there is none.
pub proof fn lemma_index_of(s: Seq<char>, c: char)
    ensures
        -1 <= index_of(s, c) < s.len(),
        index_of(s, c) >= 0 ==> s[index_of(s, c)] == c,
        index_of(s, c) >= 0 ==> forall|j: int| 0 <= j < index_of(s, c) ==> s[j] != c,
        index_of(s, c) < 0 ==> forall|j: int| 0 <= j < s.len() ==> s[j] != c,
    decreases s.len(),
{
    if s.len() > 0 {
        let t = s.drop_last();
        lemma_index_of(t, c);
        assert forall|j: int| 0 <= j < t.len() implies t[j] == s[j] by {}
    }
}

/// The first `c` of a prefix is the first `c` of the whole.
pub proof fn lemma_index_of_prefix(s: Seq<char>, c: char, k: int)
    requires
        0 <= k <= s.len(),
        index_of(s.subrange(0, k), c) >= 0,
    ensures
        index_of(s, c) == index_of(s.subrange(0, k), c),
    decreases s.len() - k,
{
    if k == s.len() {
        assert(s.subrange(0, k) =~= s);
    } else {
        let t = s.drop_last();
        assert(t.subrange(0, k) =~= s.subrange(0, k));
        lemma_index_of_prefix(t, c, k);
    }
}

/// `Some(s)` where `s` is not empty.
pub open spec fn non_empty(s: Seq<char>) -> Option<Seq<char>> {
    if s.len() > 0 {
        Some(s)
    } else {
        None
    }
}

pub open spec fn opt_view(o: Option<String>) -> Option<Seq<char>> {
    match o {
        Some(s) => Some(s@),
        None => None,
    }
}

/// The three slots of an address, as character sequences.
pub struct LinkView {
    pub path: Option<Seq<char>>,
    pub note: Option<Seq<char>>,
    pub text: Option<Seq<char>>,
}

/// A parsed link address: an optional file path, an optional note id and an
/// optional text to search for.
#[derive(Debug, PartialEq, Eq, Hash, Clone)]
pub struct Link {
    pub path: Option<String>,
    pub note: Option<NodeId>,
    pub text: Option<String>,
}

impl View for Link {
    type V = LinkView;

    open spec fn view(&self) -> LinkView {
        LinkView { path: opt_view(self.path), note: opt_view(self.note), text: opt_view(self.text) }
    }
}

/// An address string obeys the separator rules: not empty, at most one `@`
/// and at most one `#`.
pub open spec fn well_formed_address(s: Seq<char>) -> bool {
    s.len() > 0 && count_of(s, '@') <= 1 && count_of(s, '#') <= 1
}

/// The address that a well-formed address string denotes.
pub open spec fn address_of(s: Seq<char>) -> LinkView {
    let a = index_of(s, '@');
    if a >= 0 {
        let post = s.subrange(a + 1, s.len() as int);
        let h = index_of(post, '#');
        LinkView {
            path: non_empty(s.subrange(0, a)),
            note: Some(if h >= 0 { post.subrange(0, h) } else { post }),
            text: if h >= 0 { Some(post.subrange(h + 1, post.len() as int)) } else { None },
        }
    } else {
        let h = index_of(s, '#');
        if h >= 0 {
            LinkView {
                path: non_empty(s.subrange(0, h)),
                note: None,
                text: Some(s.subrange(h + 1, s.len() as int)),
            }
        } else {
            LinkView { path: non_empty(s), note: None, text: None }
        }
    }
}

/// What parsing `s` found on line `line` gives: the address, or the
/// invalid-link error for the first rule that `s` breaks.
pub open spec fn link_result(line: usize, s: Seq<char>, r: Result<Link, Error>) -> bool {
    match link_failure(s) {
        Some(why) => r is Err && is_invalid_link(r->Err_0, line, s, why),
        None => r is Ok && r->Ok_0@ == address_of(s),
    }
}

/// The reason why `s` is no address, if it is none: the first rule it breaks.
pub open spec fn link_failure(s: Seq<char>) -> Option<Seq<char>> {
    if s.len() == 0 {
        Some("Empty query"@)
    } else if count_of(s, '@') > 1 {
        Some("More than one `@` seperator in link"@)
    } else if count_of(s, '#') > 1 {
        Some("More than one `#` seperator in link"@)
    } else {
        None
    }
}

/// Number of occurrences of `c` in `s`.
pub fn count_char(s: &str, c: char) -> (r: usize)
    ensures
        r == count_of(s@, c),
{
    let n = s.unicode_len();
    let mut i: usize = 0;
    let mut k: usize = 0;
    while i < n
        invariant
            n == s@.len(),
            i <= n,
            k <= i,
            k == count_of(s@.subrange(0, i as int), c),
        decreases n - i,
    {
        assert(s@.subrange(0, i + 1).drop_last() =~= s@.subrange(0, i as int));
        if s.get_char(i) == c {
            k = k + 1;
        }
        i = i + 1;
    }
    assert(s@.subrange(0, n as int) =~= s@);
    k
}

/// Position (in characters) of the first `c` in `s`.
pub fn find_char(s: &str, c: char) -> (r: Option<usize>)
    ensures
        r is Some <==> index_of(s@, c) >= 0,
        r is Some ==> r->0 == index_of(s@, c),
{
    let n = s.unicode_len();
    let mut i: usize = 0;
    while i < n
        invariant
            n == s@.len(),
            i <= n,
            index_of(s@.subrange(0, i as int), c) == -1,
        decreases n - i,
    {
        assert(s@.subrange(0, i + 1).drop_last() =~= s@.subrange(0, i as int));
        if s.get_char(i) == c {
            proof {
                lemma_index_of_prefix(s@, c, i + 1);
            }
            return Some(i);
        }
        i = i + 1;
    }
    assert(s@.subrange(0, n as int) =~= s@);
    None
}

/// `Some(s)` where `s` is not empty.
fn non_empty_string(s: &str) -> (r: Option<String>)
    ensures
        opt_view(r) == non_empty(s@),
{
    if s.is_empty() {
        None
    } else {
        Some(s.to_owned())
    }
}

impl Link {
    /// The address with no slot set.
    pub fn empty() -> (r: Link)
        ensures
            r.path is None,
            r.note is None,
            r.text is None,
    {
        Link { path: None, note: None, text: None }
    }

    /// Parses the raw address `input` of a link found on line `line`.
    pub fn from_str(line: usize, input: &str) -> (r: Result<Link, Error>)
        ensures
            link_result(line, input@, r),
    {
        let s = input;
        if s.is_empty() {
            return Err(Error::InvalidLink(line, s.to_owned(), "Empty query".to_owned()));
        } else if count_char(s, '@') > 1 {
            return Err(
                Error::InvalidLink(line, s.to_owned(), "More than one `@` seperator in link".to_owned()),
            );
        } else if count_char(s, '#') > 1 {
            return Err(
                Error::InvalidLink(line, s.to_owned(), "More than one `#` seperator in link".to_owned()),
            );
        }
        let mut link = Link::empty();
        let n = s.unicode_len();
        proof {
            lemma_index_of(s@, '@');
            lemma_index_of(s@, '#');
        }
        match find_char(s, '@') {
            Some(a) => {
                link.path = non_empty_string(s.substring_char(0, a));
                let post = s.substring_char(a + 1, n);
                proof {
                    lemma_index_of(post@, '#');
                }
                match find_char(post, '#') {
                    Some(h) => {
                        let m = post.unicode_len();
                        link.note = Some(post.substring_char(0, h).to_owned());
                        link.text = Some(post.substring_char(h + 1, m).to_owned());
                    },
                    None => {
                        link.note = Some(post.to_owned());
                    },
                }
            },
            None => match find_char(s, '#') {
                Some(h) => {
                    link.path = non_empty_string(s.substring_char(0, h));
                    link.text = Some(s.substring_char(h + 1, n).to_owned());
                },
                None => {
                    link.path = non_empty_string(s);
                },
            },
        }
        Ok(link)
    }
}

} // verus!
