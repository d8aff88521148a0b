use org_notes::note::{index_of_id, parse_org_file, Note, ParseError};

const PATH: &str = "notes/3f2504e0-4f89-11d3-9a0c-0305e82c3301.org";
const ID: &str = "3f2504e0-4f89-11d3-9a0c-0305e82c3301";

fn parse_ok(path: &str, doc: &str) -> Note {
    match parse_org_file(path, doc) {
        Ok(n) => n,
        Err(e) => panic!("unexpected error {:?}", e),
    }
}

fn parse_err(path: &str, doc: &str) -> ParseError {
    match parse_org_file(path, doc) {
        Ok(_) => panic!("expected an error"),
        Err(e) => e,
    }
}

#[test]
fn scenario_weekly_review() {
    let doc = "#+TITLE: Weekly Review\n#+DATE: 2024-01-05\n* TODO Ship report\nSee [[notes:aabbccdd-...][Prior Review]]\n";
    let n = parse_ok(".../3f2504e0-4f89-11d3-9a0c-0305e82c3301.org", doc);
    assert_eq!(n.id, ID);
    assert_eq!(n.path, ".../3f2504e0-4f89-11d3-9a0c-0305e82c3301.org");
    assert_eq!(n.title, "Weekly Review");
    assert_eq!(n.date, "2024-01-05");
    assert_eq!(n.tasks.len(), 1);
    assert_eq!(n.tasks[0].title, "Ship report");
    assert_eq!(n.tasks[0].status, "TODO");
    assert_eq!(n.links.len(), 1);
    assert_eq!(n.links[0].target, "aabbccdd-...");
    assert_eq!(n.links[0].title, "Prior Review");
    assert!(!n.contents.contains("#+TITLE: Weekly Review"));
    assert!(!n.contents.contains("#+DATE: 2024-01-05"));
    assert_eq!(n.contents, "* TODO Ship report\nSee [[notes:aabbccdd-...][Prior Review]]\n");
}

#[test]
fn missing_title_when_absent() {
    let doc = "#+DATE: 2024-01-05\n* TODO Ship report\n";
    assert_eq!(parse_err(PATH, doc), ParseError::MissingTitle);
}

#[test]
fn missing_title_after_blank_line() {
    let doc = "\n#+TITLE: Weekly Review\n#+DATE: 2024-01-05\n";
    assert_eq!(parse_err(PATH, doc), ParseError::MissingTitle);
}

#[test]
fn missing_title_when_empty() {
    assert_eq!(parse_err(PATH, "#+TITLE: \n#+DATE: 2024-01-05\n"), ParseError::MissingTitle);
    assert_eq!(parse_err(PATH, ""), ParseError::MissingTitle);
}

#[test]
fn missing_date() {
    let doc = "#+TITLE: A\nno date here #+DATE: 2024-01-05\n#+DATE: \n";
    assert_eq!(parse_err(PATH, doc), ParseError::MissingDate);
}

#[test]
fn missing_identifier() {
    let doc = "#+TITLE: A\n#+DATE: B\n";
    assert_eq!(parse_err("notes/plain.org", doc), ParseError::MissingIdentifier);
    assert_eq!(
        parse_err("notes/3F2504E0-4F89-11D3-9A0C-0305E82C3301.org", doc),
        ParseError::MissingIdentifier
    );
}

#[test]
fn identifier_checked_before_title() {
    assert_eq!(parse_err("notes/plain.org", ""), ParseError::MissingIdentifier);
}

#[test]
fn identifier_needs_word_boundaries() {
    let doc = "#+TITLE: A\n#+DATE: B\n";
    assert_eq!(
        parse_err("x3f2504e0-4f89-11d3-9a0c-0305e82c3301.org", doc),
        ParseError::MissingIdentifier
    );
    assert_eq!(
        parse_err("_3f2504e0-4f89-11d3-9a0c-0305e82c3301.org", doc),
        ParseError::MissingIdentifier
    );
    assert_eq!(
        parse_err("\u{e9}3f2504e0-4f89-11d3-9a0c-0305e82c3301.org", doc),
        ParseError::MissingIdentifier
    );
    assert_eq!(
        parse_err("3f2504e0-4f89-11d3-9a0c-0305e82c3301a", doc),
        ParseError::MissingIdentifier
    );
    let n = parse_ok("-3f2504e0-4f89-11d3-9a0c-0305e82c3301", doc);
    assert_eq!(n.id, ID);
}

#[test]
fn identifier_is_the_leftmost() {
    let doc = "#+TITLE: A\n#+DATE: B\n";
    let n = parse_ok(
        "00000000-0000-0000-0000-000000000000/3f2504e0-4f89-11d3-9a0c-0305e82c3301.org",
        doc,
    );
    assert_eq!(n.id, "00000000-0000-0000-0000-000000000000");
    let n = parse_ok("xx3f2504e0-4f89-11d3-9a0c-0305e82c3301 3f2504e0-4f89-11d3-9a0c-0305e82c3302", doc);
    assert_eq!(n.id, "3f2504e0-4f89-11d3-9a0c-0305e82c3302");
}

#[test]
fn identifier_does_not_depend_on_content() {
    let a = parse_ok(PATH, "#+TITLE: A\n#+DATE: B\n");
    let b = parse_ok(PATH, "#+TITLE: Other\nbody 11111111-2222-3333-4444-555555555555\n#+DATE: C\n");
    assert_eq!(a.id, ID);
    assert_eq!(b.id, ID);
}

#[test]
fn declaration_lines_are_removed_whole() {
    let doc = "#+TITLE: T\nfirst\n#+DATE: D\nlast";
    let n = parse_ok(PATH, doc);
    assert_eq!(n.title, "T");
    assert_eq!(n.date, "D");
    assert_eq!(n.contents, "first\nlast");
}

#[test]
fn date_on_last_line_without_newline() {
    let n = parse_ok(PATH, "#+TITLE: T\nbody\n#+DATE: D");
    assert_eq!(n.date, "D");
    assert_eq!(n.contents, "body\n");
}

#[test]
fn title_only_line_without_newline() {
    assert_eq!(parse_err(PATH, "#+TITLE: T"), ParseError::MissingDate);
}

#[test]
fn date_must_start_a_line() {
    let n = parse_ok(PATH, "#+TITLE: T\nsee #+DATE: no\n#+DATE: yes\n");
    assert_eq!(n.date, "yes");
    assert_eq!(n.contents, "see #+DATE: no\n");
}

#[test]
fn first_of_two_dates_is_taken() {
    let n = parse_ok(PATH, "#+TITLE: T\n#+DATE: one\n#+DATE: two\n");
    assert_eq!(n.date, "one");
    assert_eq!(n.contents, "#+DATE: two\n");
}

#[test]
fn carriage_return_stays_in_title() {
    let n = parse_ok(PATH, "#+TITLE: T\r\n#+DATE: D\r\nx\r\n");
    assert_eq!(n.title, "T\r");
    assert_eq!(n.date, "D\r");
    assert_eq!(n.contents, "x\r\n");
}

#[test]
fn reparsing_finds_no_declarations() {
    let n = parse_ok(PATH, "#+TITLE: T\n#+DATE: D\n* TODO a\ntext\n");
    assert_eq!(parse_err(PATH, &n.contents), ParseError::MissingTitle);
    let again = format!("#+TITLE: T\n{}", n.contents);
    assert_eq!(parse_err(PATH, &again), ParseError::MissingDate);
}

#[test]
fn tasks_in_document_order() {
    let doc = "#+TITLE: T\n#+DATE: D\n* TODO first\ntext\n** DONE second one\n*** WAIT third\n";
    let n = parse_ok(PATH, doc);
    let got: Vec<(&str, &str)> =
        n.tasks.iter().map(|t| (t.status.as_str(), t.title.as_str())).collect();
    assert_eq!(got, vec![("TODO", "first"), ("DONE", "second one"), ("WAIT", "third")]);
    assert!(n.contents.contains("* TODO first"));
}

#[test]
fn task_shapes_that_do_not_match() {
    let doc = "#+TITLE: T\n#+DATE: D\n*TODO a\n* todo b\n * TODO c\nx* TODO d\n* TODO\n";
    let n = parse_ok(PATH, doc);
    assert_eq!(n.tasks.len(), 0);
}

#[test]
fn task_whitespace_runs_over_lines() {
    let doc = "#+TITLE: T\n#+DATE: D\n*\n\nTODO\n\ntitle here\n";
    let n = parse_ok(PATH, doc);
    assert_eq!(n.tasks.len(), 1);
    assert_eq!(n.tasks[0].status, "TODO");
    assert_eq!(n.tasks[0].title, "title here");
}

#[test]
fn task_with_unicode_whitespace() {
    let doc = "#+TITLE: T\n#+DATE: D\n*\u{3000}NEXT\u{a0}go";
    let n = parse_ok(PATH, doc);
    assert_eq!(n.tasks.len(), 1);
    assert_eq!(n.tasks[0].status, "NEXT");
    assert_eq!(n.tasks[0].title, "go");
}

#[test]
fn task_title_from_trailing_whitespace() {
    let n = parse_ok(PATH, "#+TITLE: T\n#+DATE: D\n* TODO \t \n");
    assert_eq!(n.tasks.len(), 1);
    assert_eq!(n.tasks[0].status, "TODO");
    assert_eq!(n.tasks[0].title, " ");
    let n = parse_ok(PATH, "#+TITLE: T\n#+DATE: D\n* TODO \n");
    assert_eq!(n.tasks.len(), 0);
}

#[test]
fn links_in_document_order() {
    let doc = "#+TITLE: T\n#+DATE: D\nsee [[notes:a]] and [[notes:b][Bee]]\n[[notes:c]]\n";
    let n = parse_ok(PATH, doc);
    let got: Vec<(&str, &str)> =
        n.links.iter().map(|l| (l.target.as_str(), l.title.as_str())).collect();
    assert_eq!(got, vec![("a", ""), ("b", "Bee"), ("c", "")]);
    assert!(n.contents.contains("[[notes:b][Bee]]"));
}

#[test]
fn link_without_title_is_empty() {
    let n = parse_ok(PATH, "#+TITLE: T\n#+DATE: D\n[[notes:3f2504e0-4f89-11d3-9a0c-0305e82c3301]]");
    assert_eq!(n.links.len(), 1);
    assert_eq!(n.links[0].target, "3f2504e0-4f89-11d3-9a0c-0305e82c3301");
    assert_eq!(n.links[0].title, "");
}

#[test]
fn link_title_is_verbatim() {
    let n = parse_ok(PATH, "#+TITLE: T\n#+DATE: D\n[[notes:x][  A [b] title ]]");
    assert_eq!(n.links.len(), 0);
    let n = parse_ok(PATH, "#+TITLE: T\n#+DATE: D\n[[notes:x][  A [b title ]]");
    assert_eq!(n.links.len(), 1);
    assert_eq!(n.links[0].target, "x");
    assert_eq!(n.links[0].title, "  A [b title ");
}

#[test]
fn malformed_links_are_skipped() {
    let doc = "#+TITLE: T\n#+DATE: D\n[[notes:]] [[notes:a] [[notes:b][]] [[notes:c\n]] [[notes:d][e] [[notes:ok]]";
    let n = parse_ok(PATH, doc);
    assert_eq!(n.links.len(), 1);
    assert_eq!(n.links[0].target, "ok");
}

#[test]
fn empty_body_has_no_tasks_or_links() {
    let n = parse_ok(PATH, "#+TITLE: T\n#+DATE: D\n");
    assert_eq!(n.contents, "");
    assert!(n.tasks.is_empty());
    assert!(n.links.is_empty());
}

#[test]
fn identifier_lookup() {
    let a = parse_ok(PATH, "#+TITLE: A\n#+DATE: D\n");
    let b = parse_ok("00000000-0000-0000-0000-000000000000.org", "#+TITLE: B\n#+DATE: D\n");
    let notes = vec![a, b];
    assert_eq!(index_of_id(&notes, &String::from(ID)), Some(0));
    assert_eq!(index_of_id(&notes, &String::from("00000000-0000-0000-0000-000000000000")), Some(1));
    assert_eq!(index_of_id(&notes, &String::from("none")), None);
}
