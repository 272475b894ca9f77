use vstd::prelude::*;

use crate::link::{address_of, count_of, index_of, link_failure, non_empty, LinkView};
use crate::parser::{
    add_link, backlinks_map, clear_text, declare, empty_scan, header_of, index_of_content,
    lemma_notes_map, lemma_notes_map_at, lemma_scan_wf, line_index, markdown_of, notes_map, scan,
    scan_wf, sources_for, MdEvent, NoteView, Parse, ScanView,
};

verus! {

/// Rebuilding from the same text gives the same note map and backlink map:
/// two engines that both hold what a successful rebuild from `content`
/// leaves agree on both maps.
pub proof fn lemma_rebuild_idempotent(a: Parse, b: Parse, content: Seq<char>)
    requires
        index_of_content(content) is Ok,
        a.notes_view() == index_of_content(content)->Ok_0.notes,
        a.refs_view() == index_of_content(content)->Ok_0.refs,
        b.notes_view() == index_of_content(content)->Ok_0.notes,
        b.refs_view() == index_of_content(content)->Ok_0.refs,
    ensures
        notes_map(a.notes_view()) == notes_map(b.notes_view()),
        backlinks_map(a.refs_view()) == backlinks_map(b.refs_view()),
{
}

/// Every link is counted: two links of the current note whose addresses agree
/// once their text is cleared put that note's id twice under the address.
pub proof fn lemma_backlink_per_link(acc: ScanView, l1: LinkView, l2: LinkView)
    requires
        scan_wf(acc),
        acc.current is Some,
        clear_text(l1) == clear_text(l2),
    ensures
        sources_for(add_link(add_link(acc, l1), l2).refs, clear_text(l1)) == sources_for(
            acc.refs,
            clear_text(l1),
        ).push(acc.notes[acc.current->0].id).push(acc.notes[acc.current->0].id),
{
    let key = clear_text(l1);
    let c = acc.current->0;
    let id = acc.notes[c].id;
    let once = add_link(acc, l1);
    let twice = add_link(once, l2);
    assert(once.notes[c].id == id);
    assert(once.refs.drop_last() =~= acc.refs);
    assert(once.refs.last() == (key, id));
    assert(sources_for(once.refs, key) == sources_for(acc.refs, key).push(id));
    assert(twice.refs.drop_last() =~= once.refs);
    assert(twice.refs.last() == (key, id));
    assert(sources_for(twice.refs, key) == sources_for(once.refs, key).push(id));
}

/// `s` holds neither separator.
pub open spec fn plain(s: Seq<char>) -> bool {
    forall|j: int| 0 <= j < s.len() ==> s[j] != '@' && s[j] != '#'
}

proof fn lemma_absent(s: Seq<char>, c: char)
    requires
        forall|j: int| 0 <= j < s.len() ==> s[j] != c,
    ensures
        index_of(s, c) == -1,
        count_of(s, c) == 0,
    decreases s.len(),
{
    if s.len() > 0 {
        let t = s.drop_last();
        assert forall|j: int| 0 <= j < t.len() implies t[j] != c by {
            assert(t[j] == s[j]);
        }
        lemma_absent(t, c);
    }
}

proof fn lemma_count_concat(x: Seq<char>, y: Seq<char>, c: char)
    ensures
        count_of(x + y, c) == count_of(x, c) + count_of(y, c),
    decreases y.len(),
{
    if y.len() == 0 {
        assert(x + y =~= x);
    } else {
        assert((x + y).drop_last() =~= x + y.drop_last());
        lemma_count_concat(x, y.drop_last(), c);
    }
}

/// The first `c` of `x + [c] + y` is at `x.len()` where `x` holds none.
proof fn lemma_first_after(x: Seq<char>, y: Seq<char>, c: char)
    requires
        forall|j: int| 0 <= j < x.len() ==> x[j] != c,
    ensures
        index_of(x + seq![c] + y, c) == x.len(),
        count_of(x + seq![c] + y, c) == count_of(y, c) + 1,
{
    let s = x + seq![c] + y;
    lemma_absent(x, c);
    assert(s.subrange(0, x.len() + 1 as int).drop_last() =~= x);
    crate::link::lemma_index_of_prefix(s, c, x.len() + 1 as int);
    lemma_count_concat(x + seq![c], y, c);
    assert((x + seq![c]).drop_last() =~= x);
}

/// The slots of an address string are what stands around its separators:
/// `p@n#t` has path `p` (when not empty), note `n` and text `t`; it is
/// well formed, so parsing it succeeds.
pub proof fn lemma_address_slots(p: Seq<char>, n: Seq<char>, t: Seq<char>)
    requires
        plain(p),
        plain(n),
        plain(t),
    ensures
        link_failure(p + seq!['@'] + n + seq!['#'] + t) is None,
        address_of(p + seq!['@'] + n + seq!['#'] + t) == (LinkView {
            path: non_empty(p),
            note: Some(n),
            text: Some(t),
        }),
{
    let s = p + seq!['@'] + n + seq!['#'] + t;
    let post = n + seq!['#'] + t;
    assert(s =~= p + seq!['@'] + post);
    assert forall|j: int| 0 <= j < n.len() implies n[j] != '#' by {}
    assert forall|j: int| 0 <= j < p.len() implies p[j] != '@' && p[j] != '#' by {}
    assert forall|j: int| 0 <= j < t.len() implies t[j] != '@' && t[j] != '#' by {}
    lemma_first_after(p, post, '@');
    lemma_first_after(n, t, '#');
    assert(s.subrange(p.len() + 1 as int, s.len() as int) =~= post);
    assert(s.subrange(0, p.len() as int) =~= p);
    assert(post.subrange(0, n.len() as int) =~= n);
    assert(post.subrange(n.len() + 1 as int, post.len() as int) =~= t);
    lemma_absent(t, '@');
    lemma_absent(t, '#');
    lemma_absent(n, '@');
    lemma_absent(p, '#');
    // '@': one, then none in the rest
    let na = n + seq!['#'];
    assert(post =~= na + t);
    assert forall|j: int| 0 <= j < na.len() implies na[j] != '@' by {}
    lemma_absent(na, '@');
    lemma_count_concat(na, t, '@');
    // '#': none before the note, one after it
    let pa = p + seq!['@'];
    assert(s =~= pa + post);
    assert forall|j: int| 0 <= j < pa.len() implies pa[j] != '#' by {}
    lemma_absent(pa, '#');
    lemma_count_concat(pa, post, '#');
    assert(count_of(s, '@') == 1);
    assert(count_of(s, '#') == 1);
}

/// `p#t` with no `@` has path `p` (when not empty) and text `t`; `p` alone,
/// not empty, has only the path.
pub proof fn lemma_address_without_note(p: Seq<char>, t: Seq<char>)
    requires
        plain(p),
        plain(t),
    ensures
        link_failure(p + seq!['#'] + t) is None,
        address_of(p + seq!['#'] + t) == (LinkView { path: non_empty(p), note: None, text: Some(t) }),
        p.len() > 0 ==> link_failure(p) is None,
        p.len() > 0 ==> address_of(p) == (LinkView { path: Some(p), note: None, text: None }),
{
    let s = p + seq!['#'] + t;
    assert forall|j: int| 0 <= j < p.len() implies p[j] != '#' && p[j] != '@' by {}
    assert forall|j: int| 0 <= j < t.len() implies t[j] != '#' && t[j] != '@' by {}
    assert forall|j: int| 0 <= j < s.len() implies s[j] != '@' by {
        if j < p.len() {
            assert(s[j] == p[j]);
        } else if j > p.len() {
            assert(s[j] == t[j - p.len() - 1]);
        }
    }
    lemma_absent(s, '@');
    lemma_absent(p, '@');
    lemma_absent(p, '#');
    lemma_absent(t, '#');
    lemma_first_after(p, t, '#');
    assert(s.subrange(0, p.len() as int) =~= p);
    assert(s.subrange(p.len() + 1 as int, s.len() as int) =~= t);
}

/// The id that a heading text declares, if any.
pub open spec fn declared_id(raw: Seq<char>) -> Seq<char> {
    match header_of(raw) {
        Some(p) => p.0,
        None => Seq::empty(),
    }
}

/// The event `k` starts a level-one heading whose text follows it.
pub open spec fn heading_with_text(ev: Seq<MdEvent>, k: int) -> bool {
    0 <= k && k + 1 < ev.len() && ev[k] is Heading && ev[k]->Heading_1 == 1 && ev[k + 1] is Text
}

/// The event `k` is no text taken by a level-one heading just before it.
pub open spec fn not_taken(ev: Seq<MdEvent>, k: int) -> bool {
    k == 0 || !(ev[k - 1] is Heading && ev[k - 1]->Heading_1 == 1)
}

/// The heading at `k` declares the note `n`, links aside: its text splits
/// into the note's id and title, and the note's line is the heading's line.
pub open spec fn declared_at(ev: Seq<MdEvent>, b: Seq<u8>, n: NoteView, k: int) -> bool {
    heading_with_text(ev, k) && header_of(ev[k + 1]->Text_1@) == Some((n.id, n.title)) && n.line
        == line_index(b, ev[k]->Heading_0 as int)
}

/// Some heading of the events declares `n`.
pub open spec fn declared(ev: Seq<MdEvent>, b: Seq<u8>, n: NoteView) -> bool {
    exists|k: int| declared_at(ev, b, n, k)
}

/// The heading note that the heading at `k` declares, if its text splits.
pub open spec fn heading_note(ev: Seq<MdEvent>, b: Seq<u8>, k: int) -> NoteView {
    let p = header_of(ev[k + 1]->Text_1@)->0;
    NoteView { id: p.0, title: p.1, line: line_index(b, ev[k]->Heading_0 as int), links: Seq::empty() }
}

/// `q` has the id, title and line of `h`.
pub open spec fn same_heading(q: NoteView, h: NoteView) -> bool {
    q.id == h.id && q.title == h.title && q.line == h.line
}

/// Declaring a note keeps every other note where it is.
proof fn lemma_declare_keeps(acc: ScanView, n: NoteView, p: int)
    requires
        scan_wf(acc),
        0 <= p < acc.notes.len(),
        acc.notes[p].id != n.id,
    ensures
        p < declare(acc, n).notes.len(),
        declare(acc, n).notes[p] == acc.notes[p],
{
    crate::parser::lemma_position_of(acc.notes, n.id);
}

/// Declaring a note puts it at some position.
proof fn lemma_declare_puts(acc: ScanView, n: NoteView)
    requires
        scan_wf(acc),
    ensures
        0 <= declare(acc, n).current->0 < declare(acc, n).notes.len(),
        declare(acc, n).notes[declare(acc, n).current->0] == n,
{
    crate::parser::lemma_position_of(acc.notes, n.id);
}

proof fn lemma_scan_declared(ev: Seq<MdEvent>, b: Seq<u8>, i: int, acc: ScanView)
    requires
        scan_wf(acc),
        forall|j: int| 0 <= j < acc.notes.len() ==> declared(ev, b, #[trigger] acc.notes[j]),
        scan(ev, b, i, acc) is Ok,
    ensures
        forall|j: int|
            0 <= j < scan(ev, b, i, acc)->Ok_0.notes.len() ==> declared(
                ev,
                b,
                #[trigger] scan(ev, b, i, acc)->Ok_0.notes[j],
            ),
    decreases ev.len() - i,
{
    if 0 <= i < ev.len() {
        match ev[i] {
            MdEvent::Heading(start, level) => {
                if level != 1 {
                    lemma_scan_declared(ev, b, i + 1, acc);
                } else if i + 1 < ev.len() {
                    match ev[i + 1] {
                        MdEvent::Text(_, t) => {
                            let n = heading_note(ev, b, i);
                            let next = declare(acc, n);
                            crate::parser::lemma_position_of(acc.notes, n.id);
                            crate::parser::lemma_declare_wf(acc, n);
                            assert(declared_at(ev, b, n, i));
                            assert forall|j: int| 0 <= j < next.notes.len() implies declared(
                                ev,
                                b,
                                #[trigger] next.notes[j],
                            ) by {
                                if next.notes[j] != n {
                                    assert(next.notes[j] == acc.notes[j]);
                                }
                            }
                            lemma_scan_declared(ev, b, i + 2, next);
                        },
                        _ => {
                            lemma_scan_declared(ev, b, i + 2, acc);
                        },
                    }
                }
            },
            MdEvent::LinkStart(start, dest) => {
                if acc.current is Some {
                    let next = add_link(acc, address_of(dest@));
                    crate::parser::lemma_add_link_wf(acc, address_of(dest@));
                    assert forall|j: int| 0 <= j < next.notes.len() implies declared(
                        ev,
                        b,
                        #[trigger] next.notes[j],
                    ) by {
                        let old = acc.notes[j];
                        assert(declared(ev, b, old));
                        let k = choose|k: int| declared_at(ev, b, old, k);
                        assert(declared_at(ev, b, next.notes[j], k));
                    }
                    lemma_scan_declared(ev, b, i + 1, next);
                } else {
                    lemma_scan_declared(ev, b, i + 1, acc);
                }
            },
            _ => {
                lemma_scan_declared(ev, b, i + 1, acc);
            },
        }
    }
}

proof fn lemma_notes_map_member(s: Seq<NoteView>, k: Seq<char>)
    requires
        notes_map(s).contains_key(k),
    ensures
        exists|j: int| 0 <= j < s.len() && s[j] == notes_map(s)[k] && s[j].id == k,
    decreases s.len(),
{
    let t = s.drop_last();
    if s.last().id == k {
        assert(s[s.len() - 1] == notes_map(s)[k]);
    } else {
        lemma_notes_map_member(t, k);
        let j = choose|j: int| 0 <= j < t.len() && t[j] == notes_map(t)[k] && t[j].id == k;
        assert(s[j] == t[j]);
    }
}

/// After a successful rebuild, each id of the note map stands for a note that
/// a heading of the text declares with that id, at that heading's 0-based
/// line.
pub proof fn lemma_notes_declared(content: Seq<char>, id: Seq<char>)
    requires
        index_of_content(content) is Ok,
        notes_map(index_of_content(content)->Ok_0.notes).contains_key(id),
    ensures
        ({
            let n = notes_map(index_of_content(content)->Ok_0.notes)[id];
            n.id == id && declared(markdown_of(content), vstd::utf8::encode_utf8(content), n)
        }),
{
    let ev = markdown_of(content);
    let b = vstd::utf8::encode_utf8(content);
    lemma_scan_declared(ev, b, 0, empty_scan());
    let s = index_of_content(content)->Ok_0.notes;
    lemma_notes_map_member(s, id);
    let j = choose|j: int| 0 <= j < s.len() && s[j] == notes_map(s)[id] && s[j].id == id;
    assert(declared(ev, b, s[j]));
}

/// Once a note is declared and no later heading declares its id, the scan
/// keeps its title and line.
proof fn lemma_scan_persists(ev: Seq<MdEvent>, b: Seq<u8>, i: int, acc: ScanView, n: NoteView, p: int)
    requires
        scan_wf(acc),
        scan(ev, b, i, acc) is Ok,
        0 <= p < acc.notes.len(),
        acc.notes[p].id == n.id && acc.notes[p].title == n.title && acc.notes[p].line == n.line,
        forall|k: int|
            k >= i && #[trigger] heading_with_text(ev, k) ==> declared_id(ev[k + 1]->Text_1@) != n.id,
    ensures
        ({
            let r = scan(ev, b, i, acc)->Ok_0;
            p < r.notes.len() && r.notes[p].id == n.id && r.notes[p].title == n.title && r.notes[p].line
                == n.line
        }),
    decreases ev.len() - i,
{
    if 0 <= i < ev.len() {
        match ev[i] {
            MdEvent::Heading(start, level) => {
                if level != 1 {
                    lemma_scan_persists(ev, b, i + 1, acc, n, p);
                } else if i + 1 < ev.len() {
                    match ev[i + 1] {
                        MdEvent::Text(_, t) => {
                            let h = heading_note(ev, b, i);
                            assert(heading_with_text(ev, i));
                            lemma_declare_keeps(acc, h, p);
                            crate::parser::lemma_declare_wf(acc, h);
                            lemma_scan_persists(ev, b, i + 2, declare(acc, h), n, p);
                        },
                        _ => {
                            lemma_scan_persists(ev, b, i + 2, acc, n, p);
                        },
                    }
                }
            },
            MdEvent::LinkStart(start, dest) => {
                if acc.current is Some {
                    crate::parser::lemma_add_link_wf(acc, address_of(dest@));
                    lemma_scan_persists(ev, b, i + 1, add_link(acc, address_of(dest@)), n, p);
                } else {
                    lemma_scan_persists(ev, b, i + 1, acc, n, p);
                }
            },
            _ => {
                lemma_scan_persists(ev, b, i + 1, acc, n, p);
            },
        }
    }
}

/// A heading that the scan reaches, with no later heading declaring its id,
/// leaves its note in the result.
proof fn lemma_scan_reaches(ev: Seq<MdEvent>, b: Seq<u8>, i: int, acc: ScanView, k: int)
    requires
        scan_wf(acc),
        scan(ev, b, i, acc) is Ok,
        0 <= i <= k,
        heading_with_text(ev, k),
        i == k || not_taken(ev, k),
        forall|m: int|
            m > k && #[trigger] heading_with_text(ev, m) ==> declared_id(ev[m + 1]->Text_1@) != declared_id(
                ev[k + 1]->Text_1@,
            ),
    ensures
        header_of(ev[k + 1]->Text_1@) is Some,
        exists|p: int|
            0 <= p < scan(ev, b, i, acc)->Ok_0.notes.len() && same_heading(
                #[trigger] scan(ev, b, i, acc)->Ok_0.notes[p],
                heading_note(ev, b, k),
            ),
    decreases ev.len() - i,
{
    match ev[i] {
        MdEvent::Heading(start, level) => {
            if level != 1 {
                lemma_scan_reaches(ev, b, i + 1, acc, k);
            } else {
                if i == k {
                    let h = heading_note(ev, b, k);
                    let next = declare(acc, h);
                    crate::parser::lemma_declare_wf(acc, h);
                    lemma_declare_puts(acc, h);
                    let p = next.current->0;
                    assert forall|m: int| m >= k + 2 && #[trigger] heading_with_text(ev, m) implies declared_id(
                        ev[m + 1]->Text_1@,
                    ) != h.id by {}
                    lemma_scan_persists(ev, b, i + 2, next, h, p);
                } else {
                    assert(i + 1 < k);
                    match ev[i + 1] {
                        MdEvent::Text(_, t) => {
                            let h = heading_note(ev, b, i);
                            crate::parser::lemma_declare_wf(acc, h);
                            lemma_scan_reaches(ev, b, i + 2, declare(acc, h), k);
                        },
                        _ => {
                            lemma_scan_reaches(ev, b, i + 2, acc, k);
                        },
                    }
                }
            }
        },
        MdEvent::LinkStart(start, dest) => {
            if acc.current is Some {
                crate::parser::lemma_add_link_wf(acc, address_of(dest@));
                lemma_scan_reaches(ev, b, i + 1, add_link(acc, address_of(dest@)), k);
            } else {
                lemma_scan_reaches(ev, b, i + 1, acc, k);
            }
        },
        _ => {
            lemma_scan_reaches(ev, b, i + 1, acc, k);
        },
    }
}

/// After a successful rebuild, a level-one heading at event `k` whose text
/// follows it, and whose id no later heading declares again, gives the note
/// map an entry under its id with its title and its 0-based line.
pub proof fn lemma_heading_note(content: Seq<char>, k: int)
    requires
        index_of_content(content) is Ok,
        heading_with_text(markdown_of(content), k),
        not_taken(markdown_of(content), k),
        forall|m: int|
            m > k && #[trigger] heading_with_text(markdown_of(content), m) ==> declared_id(
                markdown_of(content)[m + 1]->Text_1@,
            ) != declared_id(markdown_of(content)[k + 1]->Text_1@),
    ensures
        ({
            let h = heading_note(markdown_of(content), vstd::utf8::encode_utf8(content), k);
            let m = notes_map(index_of_content(content)->Ok_0.notes);
            m.contains_key(h.id) && m[h.id].title == h.title && m[h.id].line == h.line
        }),
{
    let ev = markdown_of(content);
    let b = vstd::utf8::encode_utf8(content);
    lemma_scan_reaches(ev, b, 0, empty_scan(), k);
    lemma_scan_wf(ev, b, 0, empty_scan());
    let s = index_of_content(content)->Ok_0.notes;
    let h = heading_note(ev, b, k);
    let p = choose|p: int| 0 <= p < s.len() && same_heading(#[trigger] s[p], h);
    assert forall|m: int| p < m < s.len() implies s[m].id != h.id by {}
    lemma_notes_map_at(s, h.id, p);
}

} // verus!
