use wikidex::common::IndexError;
use wikidex::ingest::{parse_id, DumpEvent, DumpParser};

fn start(name: &str) -> DumpEvent {
    DumpEvent::StartElement(name.to_string())
}

fn end(name: &str) -> DumpEvent {
    DumpEvent::EndElement(name.to_string())
}

fn chars(text: &str) -> DumpEvent {
    DumpEvent::Characters(text.to_string())
}

#[test]
fn assembles_one_article() {
    let mut p = DumpParser::new();
    let events = vec![
        start("page"),
        start("title"),
        chars("Alpha"),
        end("title"),
        start("id"),
        chars("1"),
        end("id"),
        start("text"),
        chars("Hello hello world"),
        end("text"),
    ];
    for e in events {
        let o = p.step(e).unwrap();
        assert!(o.completed.is_none());
        assert!(!o.done);
    }
    let o = p.step(end("page")).unwrap();
    let a = o.completed.unwrap();
    assert_eq!(a.id, 1);
    assert_eq!(a.title, "Alpha".to_string());
    assert_eq!(a.text, "Hello hello world".to_string());
    assert!(!o.done);
}

#[test]
fn later_id_elements_are_ignored() {
    // nested revision ids must not overwrite the article's id
    let mut p = DumpParser::new();
    p.step(start("id")).unwrap();
    p.step(chars("7")).unwrap();
    p.step(end("id")).unwrap();
    p.step(start("id")).unwrap();
    p.step(chars("99")).unwrap();
    p.step(end("id")).unwrap();
    let o = p.step(end("page")).unwrap();
    assert_eq!(o.completed.unwrap().id, 7);
}

#[test]
fn working_article_resets_after_page() {
    let mut p = DumpParser::new();
    p.step(start("title")).unwrap();
    p.step(chars("First")).unwrap();
    p.step(start("id")).unwrap();
    p.step(chars("1")).unwrap();
    p.step(end("page")).unwrap();
    let o = p.step(end("page")).unwrap();
    let a = o.completed.unwrap();
    assert_eq!(a.id, usize::MAX);
    assert_eq!(a.title, String::new());
}

#[test]
fn corrupt_id_aborts() {
    let mut p = DumpParser::new();
    p.step(start("id")).unwrap();
    let r = p.step(chars("12x"));
    assert!(matches!(r, Err(IndexError::MalformedId)));
}

#[test]
fn unknown_elements_are_ignored() {
    let mut p = DumpParser::new();
    p.step(start("revision")).unwrap();
    p.step(chars("junk")).unwrap();
    p.step(end("revision")).unwrap();
    let o = p.step(end("page")).unwrap();
    let a = o.completed.unwrap();
    assert_eq!(a.title, String::new());
    assert_eq!(a.text, String::new());
}

#[test]
fn article_cap_reported() {
    let mut p = DumpParser::new();
    for i in 0..10000usize {
        let o = p.step(end("page")).unwrap();
        if i < 9999 {
            assert!(!o.done);
        } else {
            assert!(o.done);
        }
    }
}

#[test]
fn parse_id_values() {
    assert_eq!(parse_id(&"0".to_string()), Some(0));
    assert_eq!(parse_id(&"10000".to_string()), Some(10000));
    assert_eq!(parse_id(&"007".to_string()), Some(7));
    assert_eq!(parse_id(&"".to_string()), None);
    assert_eq!(parse_id(&"1 2".to_string()), None);
    assert_eq!(parse_id(&"-3".to_string()), None);
    assert_eq!(parse_id(&"99999999999999999999999999".to_string()), None);
}
