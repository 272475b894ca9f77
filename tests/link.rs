use notelinks::{Error, Link};

fn link(path: Option<&str>, note: Option<&str>, text: Option<&str>) -> Link {
    Link {
        path: path.map(|x| x.to_string()),
        note: note.map(|x| x.to_string()),
        text: text.map(|x| x.to_string()),
    }
}

fn invalid_link(query: &str, error: &str) -> Result<Link, Error> {
    Err(Error::InvalidLink(0, query.into(), error.into()))
}

#[test]
fn link_parsing() {
    let samples = &[
        "/tmp/test.md@fads79#blaa",
        "@jfkl3dk23#this text",
        "#this text",
        "/books/murphys.md#Sentence beginning",
    ];

    let success: &[Result<Link, Error>] = &[
        Ok(link(Some("/tmp/test.md"), Some("fads79"), Some("blaa"))),
        Ok(link(None, Some("jfkl3dk23"), Some("this text"))),
        Ok(link(None, None, Some("this text"))),
        Ok(link(Some("/books/murphys.md"), None, Some("Sentence beginning"))),
    ];

    let samples_err = &["", "@@fdsakl3", "/blub/@fjdsakl##432"];

    let fails = &[
        invalid_link("", "Empty query"),
        invalid_link("@@fdsakl3", "More than one `@` seperator in link"),
        invalid_link("/blub/@fjdsakl##432", "More than one `#` seperator in link"),
    ];

    for (sample, expected) in samples.iter().zip(success.iter()) {
        let link = Link::from_str(0, sample);
        assert_eq!(&link, expected);
    }

    for (sample, expected) in samples_err.iter().zip(fails.iter()) {
        let link = Link::from_str(0, sample);
        assert_eq!(&link, expected);
        assert!(!Link::from_str(0, sample).is_ok());
    }
}

#[test]
fn round_trip_slots() {
    assert_eq!(Link::from_str(3, "path@note#text"), Ok(link(Some("path"), Some("note"), Some("text"))));
    assert_eq!(Link::from_str(3, "@note#text"), Ok(link(None, Some("note"), Some("text"))));
    assert_eq!(Link::from_str(3, "#text"), Ok(link(None, None, Some("text"))));
    assert_eq!(Link::from_str(3, "path"), Ok(link(Some("path"), None, None)));
    assert_eq!(Link::from_str(3, "path@note"), Ok(link(Some("path"), Some("note"), None)));
    assert_eq!(Link::from_str(3, "@"), Ok(link(None, Some(""), None)));
    assert_eq!(Link::from_str(3, "a#"), Ok(link(Some("a"), None, Some(""))));
}

#[test]
fn errors_carry_line() {
    assert_eq!(
        Link::from_str(9, "a@b@c"),
        Err(Error::InvalidLink(9, "a@b@c".into(), "More than one `@` seperator in link".into()))
    );
    assert_eq!(
        Link::from_str(2, "@x#y#"),
        Err(Error::InvalidLink(2, "@x#y#".into(), "More than one `#` seperator in link".into()))
    );
    assert_eq!(Link::from_str(1, "é@ü#ß"), Ok(link(Some("é"), Some("ü"), Some("ß"))));
}

#[test]
fn empty_link() {
    assert_eq!(Link::empty(), link(None, None, None));
}
