use std::collections::HashMap;

use notelinks::{parse_header, Error, JumpMode, JumpTo, Link, Parse, Target};

const SAMPLE: &str = "# asdf - This is a sample note\n\nSome text\n\n# ghjk - Second note\n\nThis [links](@asdf) to first one";

fn note_link(id: &str) -> Link {
    Link { path: None, note: Some(id.into()), text: None }
}

fn nodes(parser: &Parse) -> HashMap<String, (String, usize, Vec<Link>)> {
    parser.notes().iter().map(|n| (n.id.clone(), (n.title.clone(), n.line, n.links.clone()))).collect()
}

fn backlinks(parser: &Parse) -> HashMap<Link, Vec<String>> {
    let mut map: HashMap<Link, Vec<String>> = HashMap::new();
    for (l, id) in parser.references() {
        map.entry(l.clone()).or_insert_with(Vec::new).push(id.clone());
    }
    map
}

fn jump(mode: JumpMode, line: usize, column: usize) -> JumpTo {
    JumpTo { mode, cursor: vec![0, line, column] }
}

#[test]
fn markdown_parsing() {
    let content = r"
# asdf - This is a sample note

Some text

More text *import text*

# ghjk - Second note

This [links](@asdf) to first one";

    let mut parser = Parse::new();
    parser.update_content(content).unwrap();

    assert_eq!(
        nodes(&parser),
        vec![
            ("asdf".into(), ("This is a sample note".into(), 1, Vec::new())),
            ("ghjk".into(), ("Second note".into(), 7, vec![Link { path: None, note: Some("asdf".into()), text: None }]))
        ].into_iter().collect()
    );

    assert_eq!(
        backlinks(&parser),
        vec![
            (Link { path: None, note: Some("asdf".into()), text: None }, vec!["ghjk".into()])
        ].into_iter().collect()
    );
}

#[test]
fn sample_index() {
    let mut parser = Parse::new();
    assert_eq!(parser.update_content(SAMPLE), Ok(()));
    let expected: HashMap<String, (String, usize, Vec<Link>)> = vec![
        ("asdf".to_string(), ("This is a sample note".to_string(), 0, Vec::new())),
        ("ghjk".to_string(), ("Second note".to_string(), 4, vec![note_link("asdf")])),
    ].into_iter().collect();
    assert_eq!(nodes(&parser), expected);
    let expected: HashMap<Link, Vec<String>> = vec![(note_link("asdf"), vec!["ghjk".to_string()])].into_iter().collect();
    assert_eq!(backlinks(&parser), expected);
    assert_eq!(parser.backlinks_of(&note_link("asdf")), vec!["ghjk".to_string()]);
    assert_eq!(parser.lines().len(), 7);
}

#[test]
fn forward_to_note() {
    let mut parser = Parse::new();
    parser.update_content(SAMPLE).unwrap();
    assert_eq!(parser.go_to(&jump(JumpMode::Forward, 7, 6)), Ok(Target::Line(1)));
    // a single link on the line wins wherever the cursor is
    assert_eq!(parser.go_to(&jump(JumpMode::Forward, 7, 30)), Ok(Target::Line(1)));
    assert_eq!(parser.go_to(&jump(JumpMode::Forward, 3, 0)), Ok(Target::Empty));
}

#[test]
fn forward_to_missing_note() {
    let mut parser = Parse::new();
    parser.update_content("# a - A\n\nsee [x](@nope) here").unwrap();
    assert!(matches!(parser.go_to(&jump(JumpMode::Forward, 3, 5)), Err(Error::MissingNote(_))));
}

#[test]
fn other_modes_unsupported() {
    let mut parser = Parse::new();
    parser.update_content(SAMPLE).unwrap();
    for mode in [JumpMode::Backward, JumpMode::ForwardEnd, JumpMode::BackwardEnd] {
        assert!(matches!(parser.go_to(&jump(mode, 7, 6)), Err(Error::Other(_))));
    }
}

#[test]
fn cursor_beyond_content() {
    let mut parser = Parse::new();
    parser.update_content(SAMPLE).unwrap();
    assert_eq!(
        parser.go_to(&jump(JumpMode::Forward, 8, 0)),
        Err(Error::Other("content not completely parsed".into()))
    );
    assert_eq!(
        Parse::new().go_to(&jump(JumpMode::Forward, 1, 0)),
        Err(Error::Other("content not completely parsed".into()))
    );
}

#[test]
fn forward_to_paths() {
    let mut parser = Parse::new();
    parser.update_content("# a - A\n[f](/tmp/f.md) and\n[g](/tmp/g.md#Intro) too\n[t](#only)").unwrap();
    assert_eq!(parser.go_to(&jump(JumpMode::Forward, 2, 0)), Ok(Target::Path("/tmp/f.md".into())));
    assert_eq!(
        parser.go_to(&jump(JumpMode::Forward, 3, 2)),
        Ok(Target::PathText("/tmp/g.md".into(), "Intro".into()))
    );
    assert!(matches!(parser.go_to(&jump(JumpMode::Forward, 4, 0)), Err(Error::Other(_))));
}

#[test]
fn note_wins_over_path() {
    let mut parser = Parse::new();
    parser.update_content("# a - A\n\n# b - B\n[x](/f.md@a#words)").unwrap();
    assert_eq!(parser.go_to(&jump(JumpMode::Forward, 4, 1)), Ok(Target::Line(1)));
}

#[test]
fn several_links_pick_by_column() {
    let mut parser = Parse::new();
    parser.update_content("# a - A\n\n# b - B\n[x](@a) or [y](@b)").unwrap();
    assert_eq!(parser.go_to(&jump(JumpMode::Forward, 4, 1)), Ok(Target::Line(1)));
    assert_eq!(parser.go_to(&jump(JumpMode::Forward, 4, 12)), Ok(Target::Line(3)));
    assert_eq!(parser.go_to(&jump(JumpMode::Forward, 4, 8)), Ok(Target::Empty));
}

#[test]
fn backlinks_counted_per_link() {
    let mut parser = Parse::new();
    parser.update_content("# B - Bee\n\n# A - Ay\n[one](@B#anything) and [two](@B#other)").unwrap();
    let expected: HashMap<Link, Vec<String>> =
        vec![(note_link("B"), vec!["A".to_string(), "A".to_string()])].into_iter().collect();
    assert_eq!(backlinks(&parser), expected);
    assert_eq!(parser.backlinks_of(&note_link("B")), vec!["A".to_string(), "A".to_string()]);
}

#[test]
fn rebuild_is_idempotent() {
    let mut parser = Parse::new();
    parser.update_content(SAMPLE).unwrap();
    let (n1, b1) = (nodes(&parser), backlinks(&parser));
    parser.update_content(SAMPLE).unwrap();
    assert_eq!(nodes(&parser), n1);
    assert_eq!(backlinks(&parser), b1);
}

#[test]
fn invalid_header_aborts() {
    let mut parser = Parse::new();
    parser.update_content(SAMPLE).unwrap();
    assert_eq!(
        parser.update_content("intro\n# nodash\n"),
        Err(Error::InvalidHeader(2, "nodash".into()))
    );
    assert_eq!(nodes(&parser).len(), 2);
    assert_eq!(parser.lines().len(), 7);
}

#[test]
fn invalid_link_aborts() {
    let mut parser = Parse::new();
    assert_eq!(
        parser.update_content("# a - A\n\n[x](@@b)"),
        Err(Error::InvalidLink(3, "@@b".into(), "More than one `@` seperator in link".into()))
    );
    assert!(parser.notes().is_empty());
}

#[test]
fn links_before_heading_ignored() {
    let mut parser = Parse::new();
    parser.update_content("[x](@@bad)\n# a - A\n").unwrap();
    assert_eq!(nodes(&parser).len(), 1);
    assert!(parser.references().is_empty());
}

#[test]
fn repeated_id_replaces_note() {
    let mut parser = Parse::new();
    parser.update_content("# a - First\n[x](@a)\n\n# a - Second\n").unwrap();
    let n = nodes(&parser);
    assert_eq!(n.len(), 1);
    assert_eq!(n["a"], ("Second".to_string(), 3, Vec::new()));
    assert_eq!(parser.references().len(), 1);
    assert_eq!(parser.notes().len(), 1);
}

#[test]
fn header_split_and_trim() {
    assert_eq!(parse_header(4, "  id1  -  A - title "), Ok(("id1".to_string(), "A - title".to_string())));
    assert_eq!(parse_header(4, "plain"), Err(Error::InvalidHeader(4, "plain".into())));
}

#[test]
fn lines_split_at_breaks() {
    let mut parser = Parse::new();
    parser.update_content("a\r\nb\n").unwrap();
    assert_eq!(parser.lines(), &vec!["a".to_string(), "b".to_string()]);
}

#[test]
fn error_messages_name_the_request() {
    let mut parser = Parse::new();
    parser.update_content(SAMPLE).unwrap();
    assert_eq!(
        parser.go_to(&jump(JumpMode::Backward, 7, 6)),
        Err(Error::Other("mode Backward not supported with None Some(\"asdf\") None".into()))
    );
    parser.update_content("# a - A\n\nsee [x](@nope) here").unwrap();
    assert_eq!(
        parser.go_to(&jump(JumpMode::Forward, 3, 5)),
        Err(Error::MissingNote("id nope not found".into()))
    );
}

#[test]
fn marker_under_cursor_is_no_link() {
    let mut parser = Parse::new();
    parser.update_content("# a - A\nsome *bold* words").unwrap();
    assert_eq!(parser.go_to(&jump(JumpMode::Forward, 2, 5)), Ok(Target::Empty));
}

#[test]
fn invalid_link_under_cursor() {
    let mut parser = Parse::new();
    parser.update_content("intro\n[x](a##b)").unwrap();
    assert_eq!(
        parser.go_to(&jump(JumpMode::Forward, 2, 0)),
        Err(Error::InvalidLink(2, "a##b".into(), "More than one `#` seperator in link".into()))
    );
}

#[test]
fn lower_headings_declare_nothing() {
    let mut parser = Parse::new();
    parser.update_content("# a - A\n\n## sub - not a note\n\n[x](@a)").unwrap();
    let n = nodes(&parser);
    assert_eq!(n.len(), 1);
    assert_eq!(n["a"], ("A".to_string(), 0, vec![note_link("a")]));
}

#[test]
fn links_follow_replaced_note() {
    let mut parser = Parse::new();
    parser.update_content("# a - A\n\n# b - B\n\n# a - Again\n[x](@b)").unwrap();
    let notes = parser.notes();
    assert_eq!(notes.len(), 2);
    assert_eq!(notes[0].id, "a");
    assert_eq!(notes[0].title, "Again");
    assert_eq!(notes[0].line, 4);
    assert_eq!(notes[0].links, vec![note_link("b")]);
    assert!(notes[1].links.is_empty());
}
