use vstd::prelude::*;
use vstd::string::*;
use vstd::utf8::*;

use pulldown_cmark::{Event, Parser, Tag};
use regex::Regex;

use crate::error::{is_invalid_header, is_invalid_link, Error, NodeId};
use crate::link::{address_of, index_of, lemma_index_of, link_failure, opt_view, Link, LinkView};

verus! {

/// One event of the markdown reader that the indexer acts on, with the byte
/// offset where it starts.
#[derive(Debug, PartialEq, Eq, Clone)]
pub enum MdEvent {
    /// Start of a heading, with its level (1 to 6).
    Heading(usize, usize),
    /// Start of a link, with its destination.
    LinkStart(usize, String),
    /// A run of plain text.
    Text(usize, String),
    /// Anything else.
    Other(usize),
}

impl MdEvent {
    pub open spec fn start(self) -> usize {
        match self {
            MdEvent::Heading(s, _) => s,
            MdEvent::LinkStart(s, _) => s,
            MdEvent::Text(s, _) => s,
            MdEvent::Other(s) => s,
        }
    }
}

/// The events that the markdown reader produces for a text.
pub uninterp spec fn markdown_of(content: Seq<char>) -> Seq<MdEvent>;

/// Relies on pulldown_cmark::Parser::into_offset_iter: the event stream of the
/// text, each event with the byte range of the source it comes from.
#[verifier::external_body]
fn markdown_events(content: &str) -> (r: Vec<MdEvent>)
    ensures
        r@ == markdown_of(content@),
        forall|i: int| 0 <= i < r@.len() ==> r@[i].start() <= content.spec_bytes().len(),
{
    Parser::new(content).into_offset_iter().map(|(e, range)| match e {
        Event::Start(Tag::Heading(level, _, _)) => MdEvent::Heading(range.start, level as usize),
        Event::Start(Tag::Link(_, dest, _)) => MdEvent::LinkStart(range.start, dest.to_string()),
        Event::Text(t) => MdEvent::Text(range.start, t.to_string()),
        _ => MdEvent::Other(range.start),
    }).collect()
}

/// The text with leading and trailing white space removed.
pub uninterp spec fn trim_of(s: Seq<char>) -> Seq<char>;

/// Relies on str::trim: strips leading and trailing white space.
#[verifier::external_body]
fn trimmed(s: &str) -> (r: String)
    ensures
        r@ == trim_of(s@),
{
    s.trim().to_string()
}

/// The `(id, title)` that a heading text declares: split at the first `-`,
/// both sides trimmed.
pub open spec fn header_of(raw: Seq<char>) -> Option<(Seq<char>, Seq<char>)> {
    let h = index_of(raw, '-');
    if h >= 0 {
        Some((trim_of(raw.subrange(0, h)), trim_of(raw.subrange(h + 1, raw.len() as int))))
    } else {
        None
    }
}

/// Splits the heading text `input` found on line `line` into id and title.
pub fn parse_header(line: usize, input: &str) -> (r: Result<(String, String), Error>)
    ensures
        match header_of(input@) {
            Some(p) => r is Ok && r->Ok_0.0@ == p.0 && r->Ok_0.1@ == p.1,
            None => r is Err && is_invalid_header(r->Err_0, line, input@),
        },
{
    proof {
        lemma_index_of(input@, '-');
    }
    match crate::link::find_char(input, '-') {
        Some(h) => {
            let n = input.unicode_len();
            let id = trimmed(input.substring_char(0, h));
            let title = trimmed(input.substring_char(h + 1, n));
            Ok((id, title))
        },
        None => Err(Error::InvalidHeader(line, input.to_owned())),
    }
}

/// Number of line breaks in `b`.
pub open spec fn newlines(b: Seq<u8>) -> nat
    decreases b.len(),
{
    if b.len() == 0 {
        0
    } else {
        newlines(b.drop_last()) + if b.last() == 10u8 { 1nat } else { 0nat }
    }
}

/// For each byte offset `k` of `b` and its end, the number of line breaks
/// before `k`.
fn line_table(b: &[u8]) -> (t: Vec<usize>)
    ensures
        t@.len() == b@.len() + 1,
        forall|k: int| 0 <= k <= b@.len() ==> t@[k] == newlines(b@.subrange(0, k)),
        forall|k: int| 0 <= k <= b@.len() ==> t@[k] <= k,
{
    let mut t: Vec<usize> = Vec::new();
    let mut count: usize = 0;
    let mut i: usize = 0;
    assert(b@.subrange(0, 0).len() == 0);
    t.push(0);
    while i < b.len()
        invariant
            i <= b@.len(),
            t@.len() == i + 1,
            count <= i,
            count == newlines(b@.subrange(0, i as int)),
            forall|k: int| 0 <= k <= i ==> t@[k] == newlines(b@.subrange(0, k)),
            forall|k: int| 0 <= k <= i ==> t@[k] <= k,
        decreases b@.len() - i,
    {
        assert(b@.subrange(0, i + 1).drop_last() =~= b@.subrange(0, i as int));
        if b[i] == 10u8 {
            count = count + 1;
        }
        i = i + 1;
        t.push(count);
    }
    t
}

/// The 0-based line on which the byte offset `off` of `b` stands.
pub open spec fn line_index(b: Seq<u8>, off: int) -> nat {
    newlines(b.subrange(0, off))
}

/// The 1-based line reported for a token at `off`: the line of the greatest
/// line start at or before it.
pub open spec fn line_number(b: Seq<u8>, off: int) -> nat {
    if off < b.len() {
        newlines(b.subrange(0, off + 1)) + 1
    } else {
        newlines(b) + 1
    }
}

/// A note of the index: its id, title, the 0-based line of its heading and
/// its outgoing links in document order.
#[derive(Debug, PartialEq, Clone)]
pub struct Note {
    pub id: NodeId,
    pub title: String,
    pub line: usize,
    pub links: Vec<Link>,
}

pub struct NoteView {
    pub id: Seq<char>,
    pub title: Seq<char>,
    pub line: nat,
    pub links: Seq<LinkView>,
}

impl View for Note {
    type V = NoteView;

    open spec fn view(&self) -> NoteView {
        NoteView {
            id: self.id@,
            title: self.title@,
            line: self.line as nat,
            links: self.links@.map_values(|l: Link| l@),
        }
    }
}

/// What a scan has gathered: the notes, one per id in the order in which
/// their ids first appeared (a later heading with the same id replaces the
/// note in place); for each link, the address with its text cleared and the
/// id of the note that holds it; and the position of the note that links are
/// added to.
pub struct ScanView {
    pub notes: Seq<NoteView>,
    pub refs: Seq<(LinkView, Seq<char>)>,
    pub current: Option<int>,
}

/// An error of a scan, as plain values.
pub enum ScanError {
    Header(nat, Seq<char>),
    Link(nat, Seq<char>, Seq<char>),
}

pub open spec fn clear_text(l: LinkView) -> LinkView {
    LinkView { path: l.path, note: l.note, text: None }
}

/// No two notes share an id.
pub open spec fn unique_ids(s: Seq<NoteView>) -> bool {
    forall|i: int, j: int| 0 <= i < s.len() && 0 <= j < s.len() && i != j ==> s[i].id != s[j].id
}

/// Position of the last note of `s` with the id `id`, or -1.
pub open spec fn position_of(s: Seq<NoteView>, id: Seq<char>) -> int
    decreases s.len(),
{
    if s.len() == 0 {
        -1
    } else if s.last().id == id {
        s.len() - 1
    } else {
        position_of(s.drop_last(), id)
    }
}

/// Declares the note `n`: it replaces the note with its id, or is appended,
/// and becomes the current note.
pub open spec fn declare(acc: ScanView, n: NoteView) -> ScanView {
    let j = position_of(acc.notes, n.id);
    if j >= 0 {
        ScanView { notes: acc.notes.update(j, n), refs: acc.refs, current: Some(j) }
    } else {
        ScanView { notes: acc.notes.push(n), refs: acc.refs, current: Some(acc.notes.len() as int) }
    }
}

/// Adds `l` to the current note of `acc` and records it as a reference.
pub open spec fn add_link(acc: ScanView, l: LinkView) -> ScanView {
    let c = acc.current->0;
    let n = acc.notes[c];
    ScanView {
        notes: acc.notes.update(c, NoteView { id: n.id, title: n.title, line: n.line, links: n.links.push(l) }),
        refs: acc.refs.push((clear_text(l), n.id)),
        current: acc.current,
    }
}

/// The result of scanning the events `ev` of a text whose bytes are `b`, from
/// event `i` on, with `acc` gathered so far. A level-one heading declares a
/// note from the text event that follows it; a link counts once a note has
/// been declared.
pub open spec fn scan(ev: Seq<MdEvent>, b: Seq<u8>, i: int, acc: ScanView) -> Result<ScanView, ScanError>
    decreases ev.len() - i,
{
    if i < 0 || i >= ev.len() {
        Ok(acc)
    } else {
        match ev[i] {
            MdEvent::Heading(start, level) => {
                if level != 1 {
                    scan(ev, b, i + 1, acc)
                } else if i + 1 < ev.len() {
                    match ev[i + 1] {
                        MdEvent::Text(_, t) => match header_of(t@) {
                            Some(p) => scan(
                                ev,
                                b,
                                i + 2,
                                declare(
                                    acc,
                                    NoteView {
                                        id: p.0,
                                        title: p.1,
                                        line: line_index(b, start as int),
                                        links: Seq::empty(),
                                    },
                                ),
                            ),
                            None => Err(ScanError::Header(line_number(b, start as int), t@)),
                        },
                        _ => scan(ev, b, i + 2, acc),
                    }
                } else {
                    Ok(acc)
                }
            },
            MdEvent::LinkStart(start, dest) => {
                if acc.current is Some {
                    match link_failure(dest@) {
                        Some(why) => Err(ScanError::Link(line_number(b, start as int), dest@, why)),
                        None => scan(ev, b, i + 1, add_link(acc, address_of(dest@))),
                    }
                } else {
                    scan(ev, b, i + 1, acc)
                }
            },
            _ => scan(ev, b, i + 1, acc),
        }
    }
}

/// The state a scan starts from.
pub open spec fn empty_scan() -> ScanView {
    ScanView { notes: Seq::empty(), refs: Seq::empty(), current: None }
}

/// The index that a whole text gives, or the error that aborts it.
pub open spec fn index_of_content(content: Seq<char>) -> Result<ScanView, ScanError> {
    scan(markdown_of(content), encode_utf8(content), 0, empty_scan())
}

/// `e` is the error that `se` describes.
pub open spec fn error_matches(e: Error, se: ScanError) -> bool {
    match se {
        ScanError::Header(l, raw) => is_invalid_header(e, l as usize, raw) && l <= usize::MAX,
        ScanError::Link(l, raw, why) => is_invalid_link(e, l as usize, raw, why) && l <= usize::MAX,
    }
}

/// A scan state whose current note exists and whose ids are unique.
pub open spec fn scan_wf(acc: ScanView) -> bool {
    unique_ids(acc.notes) && (acc.current is Some ==> 0 <= acc.current->0 < acc.notes.len())
}

/// `position_of` gives the last note with the id, or -1 where there is none.
pub proof fn lemma_position_of(s: Seq<NoteView>, id: Seq<char>)
    ensures
        -1 <= position_of(s, id) < s.len(),
        position_of(s, id) >= 0 ==> s[position_of(s, id)].id == id,
        position_of(s, id) < 0 ==> forall|j: int| 0 <= j < s.len() ==> s[j].id != id,
    decreases s.len(),
{
    if s.len() > 0 {
        let t = s.drop_last();
        lemma_position_of(t, id);
        assert forall|j: int| 0 <= j < t.len() implies t[j] == s[j] by {}
    }
}

/// Declaring a note and adding links keep the ids unique and the current
/// note in range.
pub proof fn lemma_declare_wf(acc: ScanView, n: NoteView)
    requires
        scan_wf(acc),
    ensures
        scan_wf(declare(acc, n)),
{
    lemma_position_of(acc.notes, n.id);
    let r = declare(acc, n);
    assert forall|i: int, j: int| 0 <= i < r.notes.len() && 0 <= j < r.notes.len() && i != j implies r.notes[i].id
        != r.notes[j].id by {
        if position_of(acc.notes, n.id) < 0 {
            if i < acc.notes.len() && j < acc.notes.len() {
                assert(r.notes[i] == acc.notes[i] && r.notes[j] == acc.notes[j]);
            } else if i < acc.notes.len() {
                assert(r.notes[i] == acc.notes[i]);
            } else {
                assert(r.notes[j] == acc.notes[j]);
            }
        }
    }
}

/// Adding a link keeps the ids unique and the current note in range.
pub proof fn lemma_add_link_wf(acc: ScanView, l: LinkView)
    requires
        scan_wf(acc),
        acc.current is Some,
    ensures
        scan_wf(add_link(acc, l)),
{
    let r = add_link(acc, l);
    assert forall|i: int, j: int| 0 <= i < r.notes.len() && 0 <= j < r.notes.len() && i != j implies r.notes[i].id
        != r.notes[j].id by {
        assert(r.notes[i].id == acc.notes[i].id);
        assert(r.notes[j].id == acc.notes[j].id);
    }
}

/// A successful scan from a well-formed state ends in a well-formed state.
pub proof fn lemma_scan_wf(ev: Seq<MdEvent>, b: Seq<u8>, i: int, acc: ScanView)
    requires
        scan_wf(acc),
        scan(ev, b, i, acc) is Ok,
    ensures
        scan_wf(scan(ev, b, i, acc)->Ok_0),
    decreases ev.len() - i,
{
    if 0 <= i < ev.len() {
        match ev[i] {
            MdEvent::Heading(start, level) => {
                if level != 1 {
                    lemma_scan_wf(ev, b, i + 1, acc);
                } else if i + 1 < ev.len() {
                    match ev[i + 1] {
                        MdEvent::Text(_, t) => {
                            let p = header_of(t@)->0;
                            let n = NoteView { id: p.0, title: p.1, line: line_index(b, start as int), links: Seq::empty() };
                            lemma_declare_wf(acc, n);
                            lemma_scan_wf(ev, b, i + 2, declare(acc, n));
                        },
                        _ => {
                            lemma_scan_wf(ev, b, i + 2, acc);
                        },
                    }
                }
            },
            MdEvent::LinkStart(start, dest) => {
                if acc.current is Some {
                    lemma_add_link_wf(acc, address_of(dest@));
                    lemma_scan_wf(ev, b, i + 1, add_link(acc, address_of(dest@)));
                } else {
                    lemma_scan_wf(ev, b, i + 1, acc);
                }
            },
            _ => {
                lemma_scan_wf(ev, b, i + 1, acc);
            },
        }
    }
}

/// The lines of a text.
pub uninterp spec fn lines_of(s: Seq<char>) -> Seq<Seq<char>>;

/// Relies on str::lines: the text split at line breaks, a trailing `\r`
/// dropped from each line.
#[verifier::external_body]
fn split_lines(s: &str) -> (r: Vec<String>)
    ensures
        r@.map_values(|l: String| l@) == lines_of(s@),
{
    s.lines().map(|x| x.to_string()).collect()
}

/// A current-note position as a scan state holds it.
pub open spec fn pos_view(c: Option<usize>) -> Option<int> {
    match c {
        Some(k) => Some(k as int),
        None => None,
    }
}

pub open spec fn views_of(s: Seq<Note>) -> Seq<NoteView> {
    s.map_values(|n: Note| n@)
}

pub open spec fn refs_of(s: Seq<(Link, NodeId)>) -> Seq<(LinkView, Seq<char>)> {
    s.map_values(|p: (Link, NodeId)| (p.0@, p.1@))
}

proof fn lemma_position_of_at(s: Seq<NoteView>, id: Seq<char>, j: int)
    requires
        -1 <= j < s.len(),
        j >= 0 ==> s[j].id == id,
        forall|m: int| j < m < s.len() ==> s[m].id != id,
    ensures
        position_of(s, id) == j,
    decreases s.len(),
{
    if s.len() > 0 && j < s.len() - 1 {
        let t = s.drop_last();
        assert forall|m: int| j < m < t.len() implies t[m].id != id by {
            assert(t[m] == s[m]);
        }
        lemma_position_of_at(t, id, j);
    }
}

/// Position of the last note of `notes` with the id `id`.
fn find_id(notes: &Vec<Note>, id: &String) -> (r: Option<usize>)
    ensures
        match r {
            Some(k) => k < notes@.len() && position_of(views_of(notes@), id@) == k,
            None => position_of(views_of(notes@), id@) == -1,
        },
        r is Some ==> views_of(notes@)[r->0 as int].id == id@,
        forall|m: int| r->0 < m < notes@.len() && r is Some ==> views_of(notes@)[m].id != id@,
        r is None ==> forall|m: int| 0 <= m < notes@.len() ==> views_of(notes@)[m].id != id@,
{
    let ghost s = views_of(notes@);
    let mut i: usize = notes.len();
    while i > 0
        invariant
            i <= notes@.len(),
            s == views_of(notes@),
            forall|m: int| i <= m < notes@.len() ==> s[m].id != id@,
        decreases i,
    {
        i = i - 1;
        if notes[i].id == *id {
            proof {
                assert(s[i as int] == notes@[i as int]@);
                lemma_position_of_at(s, id@, i as int);
            }
            return Some(i);
        }
        assert(s[i as int] == notes@[i as int]@);
    }
    proof {
        lemma_position_of_at(s, id@, -1);
    }
    None
}

/// The note index and the line cache of the text it was built from.
pub struct Parse {
    notes: Vec<Note>,
    refs: Vec<(Link, NodeId)>,
    content: Vec<String>,
}

impl Parse {
    pub closed spec fn notes_view(&self) -> Seq<NoteView> {
        views_of(self.notes@)
    }

    pub closed spec fn refs_view(&self) -> Seq<(LinkView, Seq<char>)> {
        refs_of(self.refs@)
    }

    pub closed spec fn lines_view(&self) -> Seq<Seq<char>> {
        self.content@.map_values(|l: String| l@)
    }

    /// The engine's invariant: one note per id.
    pub open spec fn wf(&self) -> bool {
        unique_ids(self.notes_view())
    }

    /// An engine that holds no notes and no text.
    pub fn new() -> (r: Parse)
        ensures
            r.wf(),
            r.notes_view().len() == 0,
            r.refs_view().len() == 0,
            r.lines_view().len() == 0,
    {
        Parse { notes: Vec::new(), refs: Vec::new(), content: Vec::new() }
    }

    /// Rebuilds the index from the whole text `content`. On an error nothing
    /// changes.
    pub fn update_content(&mut self, content: &str) -> (r: Result<(), Error>)
        requires
            old(self).wf(),
        ensures
            final(self).wf(),
            match index_of_content(content@) {
                Ok(v) => r is Ok && final(self).notes_view() == v.notes && final(self).refs_view()
                    == v.refs && final(self).lines_view() == lines_of(content@),
                Err(se) => r is Err && error_matches(r->Err_0, se) && *final(self) == *old(self),
            },
    {
        let events = markdown_events(content);
        let bytes = content.as_bytes();
        let table = line_table(bytes);
        let ghost b = encode_utf8(content@);
        let ghost ev = markdown_of(content@);
        let mut notes: Vec<Note> = Vec::new();
        let mut refs: Vec<(Link, NodeId)> = Vec::new();
        let mut cur: Option<usize> = None;
        let n = events.len();
        let mut i: usize = 0;
        proof {
            assert(b.subrange(0, b.len() as int) =~= b);
            assert(views_of(notes@) =~= Seq::<NoteView>::empty());
            assert(refs_of(refs@) =~= Seq::<(LinkView, Seq<char>)>::empty());
        }
        while i < n
            invariant
                n == events@.len(),
                self.wf(),
                *self == *old(self),
                events@ == ev,
                b == bytes@,
                b.subrange(0, b.len() as int) == b,
                table@.len() == b.len() + 1,
                forall|k: int| 0 <= k <= b.len() ==> table@[k] == newlines(b.subrange(0, k)),
                forall|k: int| 0 <= k <= b.len() ==> table@[k] <= k,
                forall|k: int| 0 <= k < n ==> ev[k].start() <= b.len(),
                i <= n + 1,
                scan_wf(ScanView { notes: views_of(notes@), refs: refs_of(refs@), current: pos_view(cur) }),
                scan(ev, b, i as int, ScanView { notes: views_of(notes@), refs: refs_of(refs@), current: pos_view(cur) })
                    == index_of_content(content@),
            decreases n + 1 - i,
        {
            let ghost acc = ScanView { notes: views_of(notes@), refs: refs_of(refs@), current: pos_view(cur) };
            match &events[i] {
                MdEvent::Heading(start, level) => {
                    if *level != 1 {
                        i = i + 1;
                    } else if i + 1 < n {
                        match &events[i + 1] {
                            MdEvent::Text(_, t) => {
                                let line = line_of_offset(&table, *start);
                                let (id, title) = match parse_header(line, t.as_str()) {
                                    Ok(p) => p,
                                    Err(e) => {
                                        proof {
                                            assert(*start as int <= b.len());
                                            assert(line == line_number(b, *start as int));
                                        }
                                        return Err(e);
                                    },
                                };
                                let decl = table[*start];
                                let note = Note { id, title, line: decl, links: Vec::new() };
                                let ghost nv = note@;
                                proof {
                                    assert(note.links@.map_values(|l: Link| l@) =~= Seq::<LinkView>::empty());
                                    lemma_declare_wf(acc, nv);
                                }
                                match find_id(&notes, &note.id) {
                                    Some(j) => {
                                        notes.set(j, note);
                                        cur = Some(j);
                                        proof {
                                            assert(views_of(notes@) =~= declare(acc, nv).notes);
                                        }
                                    },
                                    None => {
                                        cur = Some(notes.len());
                                        notes.push(note);
                                        proof {
                                            assert(views_of(notes@) =~= declare(acc, nv).notes);
                                        }
                                    },
                                }
                            },
                            _ => {},
                        }
                        i = i + 2;
                    } else {
                        i = n;
                    }
                },
                MdEvent::LinkStart(start, dest) => {
                    match cur {
                        Some(c) => {
                            let line = line_of_offset(&table, *start);
                            let link = match Link::from_str(line, dest.as_str()) {
                                Ok(l) => l,
                                Err(e) => {
                                    proof {
                                        assert(*start as int <= b.len());
                                        assert(line == line_number(b, *start as int));
                                    }
                                    return Err(e);
                                },
                            };
                            let cleared = Link { path: link.path.clone(), note: link.note.clone(), text: None };
                            let mut held = Note { id: String::new(), title: String::new(), line: 0, links: Vec::new() };
                            notes.set_and_swap(c, &mut held);
                            let ghost old_held = held;
                            refs.push((cleared, held.id.clone()));
                            let ghost lv = link@;
                            held.links.push(link);
                            proof {
                                assert(held.links@.map_values(|l: Link| l@) =~= old_held.links@.map_values(|l: Link| l@).push(lv));
                            }
                            notes.set(c, held);
                            proof {
                                lemma_add_link_wf(acc, address_of(dest@));
                                assert(views_of(notes@) =~= add_link(acc, address_of(dest@)).notes);
                                assert(refs_of(refs@) =~= add_link(acc, address_of(dest@)).refs);
                            }
                        },
                        None => {},
                    }
                    i = i + 1;
                },
                _ => {
                    i = i + 1;
                },
            }
        }
        proof {
            lemma_scan_wf(ev, b, 0, empty_scan());
        }
        self.notes = notes;
        self.refs = refs;
        self.content = split_lines(content);
        Ok(())
    }
}

/// The 1-based line number of a token at byte offset `off`, from a line table.
fn line_of_offset(table: &Vec<usize>, off: usize) -> (r: usize)
    requires
        table@.len() >= 1,
        off < table@.len(),
        forall|k: int| 0 <= k < table@.len() ==> table@[k] <= k,
    ensures
        off + 1 < table@.len() ==> r == table@[off + 1] + 1,
        off + 1 >= table@.len() ==> r == table@[off as int] + 1,
{
    let len = table.len();
    if off < len - 1 {
        table[off + 1] + 1
    } else {
        table[off] + 1
    }
}

/// Pattern of the spans that a cursor line is scanned for: emphasis and
/// heading markers, and `[label](address)` links.
pub const LINK_PATTERN: &'static str = r"(?:__|[*#])|\[(.*?)\]\((.*?)\)";

/// A match of the link pattern on a line: its byte range and, for a link,
/// the address between the parentheses.
#[derive(Debug, PartialEq, Eq, Clone)]
pub struct Span {
    pub start: usize,
    pub end: usize,
    pub address: Option<String>,
}

/// The matches of `pattern` in `hay`.
pub uninterp spec fn spans_of(pattern: Seq<char>, hay: Seq<char>) -> Seq<Span>;

/// Relies on regex::Regex::new, which fails only on an invalid pattern or one
/// over the size limit (the link pattern is neither), and on
/// regex::Regex::captures_iter: the successive non-overlapping matches in
/// `hay`, each with the range of the whole match and its second group.
#[verifier::external_body]
fn find_spans(pattern: &str, hay: &str) -> (r: Option<Vec<Span>>)
    ensures
        r is Some ==> r->0@ == spans_of(pattern@, hay@),
        pattern@ == LINK_PATTERN@ ==> r is Some,
{
    Regex::new(pattern).ok().map(|re| re.captures_iter(hay).map(|c| {
        let m = c.get(0).unwrap();
        Span { start: m.start(), end: m.end(), address: c.get(2).map(|a| a.as_str().to_string()) }
    }).collect())
}

/// How a jump request wants to move.
#[derive(Debug, PartialEq, Eq, Clone, Copy)]
pub enum JumpMode {
    Forward,
    Backward,
    ForwardEnd,
    BackwardEnd,
}

/// A jump request: a mode and a cursor `[_, line, column]`, the line 1-based
/// and the column a 0-based byte offset.
#[derive(Debug, Clone)]
pub struct JumpTo {
    pub mode: JumpMode,
    pub cursor: Vec<usize>,
}

/// Where a jump leads.
#[derive(Debug, PartialEq, Eq, Clone)]
pub enum Target {
    /// No link under the cursor.
    Empty,
    /// A 1-based line of the indexed text.
    Line(usize),
    /// A file.
    Path(String),
    /// A file and a text to search in it.
    PathText(String, String),
}

/// The span's byte range holds `column`.
pub open spec fn covers(s: Span, column: usize) -> bool {
    s.start <= column < s.end
}

/// `i` is the first span whose range holds `column`.
pub open spec fn first_covering(spans: Seq<Span>, column: usize, i: int) -> bool {
    0 <= i < spans.len() && covers(spans[i], column) && forall|j: int|
        0 <= j < i ==> !covers(#[trigger] spans[j], column)
}

/// The span that a cursor at `column` selects: the only span of the line, or
/// else the first one whose range holds the column.
pub open spec fn selected(spans: Seq<Span>, column: usize) -> Option<int> {
    if spans.len() == 1 {
        Some(0)
    } else if exists|i: int| first_covering(spans, column, i) {
        Some(choose|i: int| first_covering(spans, column, i))
    } else {
        None
    }
}

/// Index of the span that a cursor at `column` selects.
pub fn select_span(spans: &Vec<Span>, column: usize) -> (r: Option<usize>)
    ensures
        spans@.len() == 1 ==> r == Some(0usize),
        spans@.len() != 1 ==> (r is None <==> forall|i: int|
            0 <= i < spans@.len() ==> !(covers(spans@[i], column))),
        spans@.len() != 1 && r is Some ==> r->0 < spans@.len() && covers(spans@[r->0 as int], column) && forall|j: int|
            0 <= j < r->0 ==> !(covers(spans@[j], column)),
        match selected(spans@, column) {
            Some(k) => r == Some(k as usize),
            None => r is None,
        },
{
    if spans.len() == 1 {
        return Some(0);
    }
    let mut i: usize = 0;
    while i < spans.len()
        invariant
            i <= spans@.len(),
            forall|j: int| 0 <= j < i ==> !(covers(spans@[j], column)),
        decreases spans@.len() - i,
    {
        if spans[i].start <= column && column < spans[i].end {
            proof {
                assert(first_covering(spans@, column, i as int));
                let k = choose|k: int| first_covering(spans@, column, k);
                if k < i {
                    assert(covers(spans@[k], column));
                } else if k > i {
                    assert(!covers(spans@[i as int], column));
                }
            }
            return Some(i);
        }
        i = i + 1;
    }
    proof {
        if exists|k: int| first_covering(spans@, column, k) {
            let k = choose|k: int| first_covering(spans@, column, k);
            assert(!covers(spans@[k], column));
        }
    }
    None
}

/// The notes by id; a later note with an id replaces an earlier one.
pub open spec fn notes_map(s: Seq<NoteView>) -> Map<Seq<char>, NoteView>
    decreases s.len(),
{
    if s.len() == 0 {
        Map::empty()
    } else {
        notes_map(s.drop_last()).insert(s.last().id, s.last())
    }
}

/// An id is a key of the note map exactly when some note carries it.
pub proof fn lemma_notes_map(s: Seq<NoteView>, k: Seq<char>)
    ensures
        notes_map(s).contains_key(k) <==> exists|j: int| 0 <= j < s.len() && s[j].id == k,
    decreases s.len(),
{
    if s.len() > 0 {
        let t = s.drop_last();
        lemma_notes_map(t, k);
        assert forall|j: int| 0 <= j < t.len() implies t[j] == s[j] by {}
        if notes_map(s).contains_key(k) && s.last().id != k {
            let j = choose|j: int| 0 <= j < t.len() && t[j].id == k;
            assert(s[j].id == k);
        }
        if exists|j: int| 0 <= j < s.len() && s[j].id == k {
            let j = choose|j: int| 0 <= j < s.len() && s[j].id == k;
            if j < t.len() {
                assert(t[j].id == k);
            }
        }
    }
}

/// The last note with an id is the one that the id names.
pub proof fn lemma_notes_map_at(s: Seq<NoteView>, k: Seq<char>, j: int)
    requires
        0 <= j < s.len(),
        s[j].id == k,
        forall|m: int| j < m < s.len() ==> s[m].id != k,
    ensures
        notes_map(s).contains_key(k),
        notes_map(s)[k] == s[j],
    decreases s.len(),
{
    let t = s.drop_last();
    if j < s.len() - 1 {
        assert forall|m: int| j < m < t.len() implies t[m].id != k by {
            assert(t[m] == s[m]);
        }
        lemma_notes_map_at(t, k, j);
        assert(s.last().id != k);
    }
}

pub open spec fn mode_name(mode: JumpMode) -> Seq<char> {
    match mode {
        JumpMode::Forward => "Forward"@,
        JumpMode::Backward => "Backward"@,
        JumpMode::ForwardEnd => "ForwardEnd"@,
        JumpMode::BackwardEnd => "BackwardEnd"@,
    }
}

/// A slot as the message shows it: `Some("value")` or `None`.
pub open spec fn slot_text(o: Option<Seq<char>>) -> Seq<char> {
    match o {
        Some(v) => "Some(\""@ + v + "\")"@,
        None => "None"@,
    }
}

/// The message of a request that no rule handles.
pub open spec fn unsupported(mode: JumpMode, l: LinkView) -> Seq<char> {
    "mode "@ + mode_name(mode) + " not supported with "@ + slot_text(l.path) + " "@ + slot_text(l.note)
        + " "@ + slot_text(l.text)
}

/// The message of a note id that the index does not hold.
pub open spec fn missing(id: Seq<char>) -> Seq<char> {
    "id "@ + id + " not found"@
}

fn mode_text(mode: JumpMode) -> (r: &'static str)
    ensures
        r@ == mode_name(mode),
{
    match mode {
        JumpMode::Forward => "Forward",
        JumpMode::Backward => "Backward",
        JumpMode::ForwardEnd => "ForwardEnd",
        JumpMode::BackwardEnd => "BackwardEnd",
    }
}

fn push_slot(out: String, o: &Option<String>) -> (r: String)
    ensures
        r@ == out@ + slot_text(opt_view(*o)),
{
    match o {
        Some(v) => {
            let r = out.concat("Some(\"").concat(v.as_str()).concat("\")");
            assert(r@ =~= out@ + slot_text(opt_view(*o)));
            r
        },
        None => out.concat("None"),
    }
}

fn unsupported_message(mode: JumpMode, link: &Link) -> (r: String)
    ensures
        r@ == unsupported(mode, link@),
{
    let m = "mode ".to_owned().concat(mode_text(mode)).concat(" not supported with ");
    let m = push_slot(m, &link.path).concat(" ");
    let m = push_slot(m, &link.note).concat(" ");
    let r = push_slot(m, &link.text);
    assert(r@ =~= unsupported(mode, link@));
    r
}

fn missing_message(id: &String) -> (r: String)
    ensures
        r@ == missing(id@),
{
    let r = "id ".to_owned().concat(id.as_str()).concat(" not found");
    assert(r@ =~= missing(id@));
    r
}

/// The target that `mode` and the address `l` give against the notes `m`.
pub open spec fn jump_rule(m: Map<Seq<char>, NoteView>, mode: JumpMode, l: LinkView, t: Result<Target, Error>) -> bool {
    if mode == JumpMode::Forward && l.path is Some && l.note is None && l.text is None {
        t is Ok && (t->Ok_0 matches Target::Path(p) && p@ == l.path->0)
    } else if mode == JumpMode::Forward && l.note is Some {
        if m.contains_key(l.note->0) {
            if m[l.note->0].line < usize::MAX {
                t == Ok::<Target, Error>(Target::Line((m[l.note->0].line + 1) as usize))
            } else {
                t is Err && (t->Err_0 matches Error::Other(msg) && msg@ == "note line out of range"@)
            }
        } else {
            t is Err && (t->Err_0 matches Error::MissingNote(msg) && msg@ == missing(l.note->0))
        }
    } else if mode == JumpMode::Forward && l.path is Some && l.text is Some {
        t is Ok && (t->Ok_0 matches Target::PathText(p, x) && p@ == l.path->0 && x@ == l.text->0)
    } else {
        t is Err && (t->Err_0 matches Error::Other(msg) && msg@ == unsupported(mode, l))
    }
}

impl Parse {
    /// Position of the note that the id `id` names: the last one declared.
    pub fn find_note(&self, id: &String) -> (r: Option<usize>)
        ensures
            r is None <==> !notes_map(self.notes_view()).contains_key(id@),
            r is Some ==> r->0 < self.notes_view().len() && notes_map(self.notes_view())[id@]
                == self.notes_view()[r->0 as int],
    {
        proof {
            lemma_notes_map(self.notes_view(), id@);
        }
        let r = find_id(&self.notes, id);
        proof {
            if r is Some {
                lemma_notes_map_at(self.notes_view(), id@, r->0 as int);
            }
        }
        r
    }

    /// The target that `mode` and the address `link` give.
    pub fn target_for(&self, mode: JumpMode, link: &Link) -> (r: Result<Target, Error>)
        ensures
            jump_rule(notes_map(self.notes_view()), mode, link@, r),
    {
        let forward = match mode {
            JumpMode::Forward => true,
            _ => false,
        };
        if forward && link.path.is_some() && link.note.is_none() && link.text.is_none() {
            let p = link.path.clone().unwrap();
            return Ok(Target::Path(p));
        }
        if forward {
            match &link.note {
                Some(id) => {
                    return match self.find_note(id) {
                        Some(k) => {
                            proof {
                                assert(self.notes_view()[k as int] == self.notes@[k as int]@);
                            }
                            let line = self.notes[k].line;
                            if line < usize::MAX {
                                Ok(Target::Line(line + 1))
                            } else {
                                Err(Error::Other("note line out of range".to_owned()))
                            }
                        },
                        None => Err(Error::MissingNote(missing_message(id))),
                    };
                },
                None => {},
            }
            match (&link.path, &link.text) {
                (Some(p), Some(t)) => {
                    return Ok(Target::PathText(p.clone(), t.clone()));
                },
                _ => {},
            }
        }
        Err(Error::Other(unsupported_message(mode, link)))
    }
}

/// What resolving a cursor at `column` on line `line` gives, where the line
/// holds the spans `spans`, against the notes `m`.
pub open spec fn resolve_rule(
    m: Map<Seq<char>, NoteView>,
    mode: JumpMode,
    line: usize,
    spans: Seq<Span>,
    column: usize,
    r: Result<Target, Error>,
) -> bool {
    match selected(spans, column) {
        None => r == Ok::<Target, Error>(Target::Empty),
        Some(k) => match spans[k].address {
            None => r == Ok::<Target, Error>(Target::Empty),
            Some(a) => match link_failure(a@) {
                Some(why) => r is Err && is_invalid_link(r->Err_0, line, a@, why),
                None => jump_rule(m, mode, address_of(a@), r),
            },
        },
    }
}

/// The references by address: for each address with its text cleared, the ids
/// of the notes that link to it, once per link, in document order.
pub open spec fn sources_for(refs: Seq<(LinkView, Seq<char>)>, key: LinkView) -> Seq<Seq<char>>
    decreases refs.len(),
{
    if refs.len() == 0 {
        Seq::empty()
    } else {
        let rest = sources_for(refs.drop_last(), key);
        if refs.last().0 == key {
            rest.push(refs.last().1)
        } else {
            rest
        }
    }
}

/// The backlink map of a list of references.
pub open spec fn backlinks_map(refs: Seq<(LinkView, Seq<char>)>) -> Map<LinkView, Seq<Seq<char>>> {
    Map::new(|k: LinkView| sources_for(refs, k).len() > 0, |k: LinkView| sources_for(refs, k))
}

fn same_slot(a: &Option<String>, b: &Option<String>) -> (r: bool)
    ensures
        r == (opt_view(*a) == opt_view(*b)),
{
    match (a, b) {
        (Some(x), Some(y)) => *x == *y,
        (None, None) => true,
        _ => false,
    }
}

impl Parse {
    /// The notes in the order of their headings.
    pub fn notes(&self) -> (r: &Vec<Note>)
        ensures
            r@.map_values(|n: Note| n@) == self.notes_view(),
    {
        &self.notes
    }

    /// Each link of the notes, its text cleared, with the id of its note.
    pub fn references(&self) -> (r: &Vec<(Link, NodeId)>)
        ensures
            r@.map_values(|p: (Link, NodeId)| (p.0@, p.1@)) == self.refs_view(),
    {
        &self.refs
    }

    /// The lines of the indexed text.
    pub fn lines(&self) -> (r: &Vec<String>)
        ensures
            r@.map_values(|l: String| l@) == self.lines_view(),
    {
        &self.content
    }

    /// The ids of the notes that link to `target`, its text left aside.
    pub fn backlinks_of(&self, target: &Link) -> (r: Vec<NodeId>)
        ensures
            r@.map_values(|s: String| s@) == sources_for(self.refs_view(), clear_text(target@)),
    {
        let ghost key = clear_text(target@);
        let mut out: Vec<NodeId> = Vec::new();
        let mut i: usize = 0;
        while i < self.refs.len()
            invariant
                i <= self.refs@.len(),
                key == clear_text(target@),
                self.refs_view().len() == self.refs@.len(),
                forall|m: int| 0 <= m < self.refs@.len() ==> self.refs_view()[m] == (self.refs@[m].0@, self.refs@[m].1@),
                out@.map_values(|s: String| s@) == sources_for(self.refs_view().subrange(0, i as int), key),
            decreases self.refs@.len() - i,
        {
            let ghost prev = out@.map_values(|s: String| s@);
            assert(self.refs_view().subrange(0, i + 1).drop_last() =~= self.refs_view().subrange(0, i as int));
            assert(self.refs_view().subrange(0, i + 1).last() == self.refs_view()[i as int]);
            let (l, id) = &self.refs[i];
            let same_path = same_slot(&l.path, &target.path);
            let same_note = same_slot(&l.note, &target.note);
            if same_path && same_note && l.text.is_none() {
                out.push(id.clone());
                proof {
                    assert(out@.map_values(|s: String| s@) =~= prev.push(id@));
                }
            }
            i = i + 1;
        }
        assert(self.refs_view().subrange(0, self.refs@.len() as int) =~= self.refs_view());
        out
    }

    /// Resolves a cursor at `column` on the 1-based line `line`, whose spans
    /// are `spans`.
    pub fn resolve(&self, mode: JumpMode, line: usize, column: usize, spans: &Vec<Span>) -> (r: Result<Target, Error>)
        ensures
            resolve_rule(notes_map(self.notes_view()), mode, line, spans@, column, r),
    {
        match select_span(spans, column) {
            None => Ok(Target::Empty),
            Some(k) => match &spans[k].address {
                None => Ok(Target::Empty),
                Some(a) => match Link::from_str(line, a.as_str()) {
                    Ok(link) => self.target_for(mode, &link),
                    Err(e) => Err(e),
                },
            },
        }
    }

    /// Resolves the jump request `jump` against the indexed text.
    pub fn go_to(&self, jump: &JumpTo) -> (r: Result<Target, Error>)
        requires
            jump.cursor@.len() >= 3,
        ensures
            ({
                let line = jump.cursor@[1];
                if line == 0 || line > self.lines_view().len() {
                    r is Err && (r->Err_0 matches Error::Other(m) && m@ == "content not completely parsed"@)
                } else {
                    resolve_rule(
                        notes_map(self.notes_view()),
                        jump.mode,
                        line,
                        spans_of(LINK_PATTERN@, self.lines_view()[line - 1]),
                        jump.cursor@[2],
                        r,
                    )
                }
            }),
    {
        let line = jump.cursor[1];
        let column = jump.cursor[2];
        if line == 0 || line > self.content.len() {
            return Err(Error::Other("content not completely parsed".to_owned()));
        }
        let text = self.content[line - 1].as_str();
        proof {
            assert(text@ == self.lines_view()[line - 1]);
        }
        match find_spans(LINK_PATTERN, text) {
            Some(spans) => self.resolve(jump.mode, line, column, &spans),
            None => Err(Error::Other("invalid link pattern".to_owned())),
        }
    }
}

} // verus!
