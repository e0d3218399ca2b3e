use clangastana::error::AstXmlError;
use clangastana::node::AstNode;
use clangastana::option::AstXmlOption;
use clangastana::serializer::{
    is_well_formed_traversal, parse_translation_unit, Session, Visit, VisitDirective,
};
use clangastana::stack::{Ancestor, AncestorStack};
use clangastana::writer::XmlSink;

fn node(id: u64, kind: &str, in_main_file: bool) -> AstNode {
    AstNode {
        id,
        in_main_file,
        kind: kind.to_string(),
        usr: None,
        location: None,
        linkage: None,
        module: None,
        type_info: None,
        enum_constant_value: None,
        comment: None,
        display_name: None,
    }
}

fn visit(id: u64, kind: &str, parent: u64) -> Visit {
    Visit { current: node(id, kind, true), parent }
}

fn header_visit(id: u64, kind: &str, parent: u64) -> Visit {
    Visit { current: node(id, kind, false), parent }
}

fn skipping() -> AstXmlOption<'static> {
    AstXmlOption { skip_non_main_file: true, ..Default::default() }
}

fn written(sink: &XmlSink) -> String {
    String::from_utf8(sink.as_bytes().clone()).unwrap()
}

/// The names of the elements as they open and close, read back from the text.
fn read_back(text: &str) -> Vec<String> {
    let mut seen = Vec::new();
    let mut open: Vec<String> = Vec::new();
    for event in xml::reader::EventReader::new(text.as_bytes()) {
        match event.unwrap() {
            xml::reader::XmlEvent::StartElement { name, .. } => {
                seen.push(format!("+{}", name.local_name));
                open.push(name.local_name);
            }
            xml::reader::XmlEvent::EndElement { name } => {
                assert_eq!(open.pop(), Some(name.local_name.clone()));
                seen.push(format!("-{}", name.local_name));
            }
            _ => {}
        }
    }
    assert!(open.is_empty());
    seen
}

fn run(root: &AstNode, visits: &Vec<Visit>, option: &AstXmlOption) -> String {
    assert!(is_well_formed_traversal(root, visits));
    let mut sink = XmlSink::new();
    parse_translation_unit(root, visits, &mut sink, option).unwrap();
    String::from_utf8(sink.into_bytes()).unwrap()
}

fn refusal() -> AstXmlError {
    AstXmlError::Xml(xml::writer::Error::LastElementNameNotAvailable)
}

#[test]
fn new_path_holds_the_root() {
    let stack = AncestorStack::new(7);
    assert_eq!(stack.len(), 1);
    assert!(stack.is_open(7));
    assert!(!stack.is_open(0));
}

#[test]
fn descending_into_the_top_closes_nothing() {
    let mut stack = AncestorStack::new(0);
    assert_eq!(stack.descend(0, Ancestor { id: 1, excluded: false }), 0);
    assert_eq!(stack.descend(1, Ancestor { id: 2, excluded: false }), 0);
    assert_eq!(stack.len(), 3);
    assert!(stack.is_open(0) && stack.is_open(1) && stack.is_open(2));
}

#[test]
fn descending_into_an_ancestor_closes_what_lies_above_it() {
    let mut stack = AncestorStack::new(0);
    stack.descend(0, Ancestor { id: 1, excluded: false });
    stack.descend(1, Ancestor { id: 2, excluded: false });
    stack.descend(2, Ancestor { id: 3, excluded: false });
    assert_eq!(stack.descend(0, Ancestor { id: 4, excluded: false }), 3);
    assert_eq!(stack.len(), 2);
    assert!(stack.is_open(0) && stack.is_open(4));
    assert!(!stack.is_open(1) && !stack.is_open(2) && !stack.is_open(3));
}

#[test]
fn entries_without_an_element_close_nothing() {
    let mut stack = AncestorStack::new(0);
    stack.descend(0, Ancestor { id: 1, excluded: true });
    stack.descend(1, Ancestor { id: 2, excluded: false });
    stack.descend(2, Ancestor { id: 3, excluded: true });
    assert_eq!(stack.descend(0, Ancestor { id: 4, excluded: true }), 1);
    assert_eq!(stack.drain(), 1);
    assert_eq!(stack.len(), 0);
}

#[test]
fn descending_stops_at_the_topmost_entry_of_the_parent() {
    let mut stack = AncestorStack::new(0);
    stack.descend(0, Ancestor { id: 1, excluded: false });
    stack.descend(1, Ancestor { id: 0, excluded: false });
    stack.descend(0, Ancestor { id: 2, excluded: false });
    assert_eq!(stack.descend(0, Ancestor { id: 3, excluded: false }), 1);
    assert_eq!(stack.len(), 4);
}

#[test]
fn draining_closes_every_element_and_empties_the_path() {
    let mut stack = AncestorStack::new(0);
    stack.descend(0, Ancestor { id: 1, excluded: false });
    stack.descend(1, Ancestor { id: 2, excluded: true });
    stack.descend(2, Ancestor { id: 3, excluded: false });
    assert_eq!(stack.drain(), 3);
    assert_eq!(stack.len(), 0);
    assert!(!stack.is_open(0));
    assert_eq!(stack.drain(), 0);
}

#[test]
fn traversal_with_an_unknown_parent_is_not_well_formed() {
    let root = node(0, "TranslationUnit", true);
    let visits = vec![visit(1, "A", 0), visit(2, "B", 9)];
    assert!(!is_well_formed_traversal(&root, &visits));
}

#[test]
fn traversal_with_a_parent_that_has_left_the_path_is_not_well_formed() {
    let root = node(0, "TranslationUnit", true);
    let visits = vec![visit(1, "A", 0), visit(2, "B", 1), visit(3, "C", 0), visit(4, "D", 2)];
    assert!(!is_well_formed_traversal(&root, &visits));
}

#[test]
fn visit_to_a_child_of_the_node_just_visited_is_well_formed() {
    let root = node(0, "TranslationUnit", false);
    let visits = vec![header_visit(1, "A", 0), header_visit(2, "B", 1), header_visit(3, "C", 2)];
    assert!(is_well_formed_traversal(&root, &visits));
    let mut sink = XmlSink::new();
    assert!(parse_translation_unit(&root, &visits, &mut sink, &skipping()).is_ok());
}

#[test]
fn traversal_of_a_tree_is_well_formed() {
    let root = node(0, "TranslationUnit", true);
    assert!(is_well_formed_traversal(&root, &vec![]));
    let visits = vec![visit(1, "A", 0), visit(2, "B", 1), visit(3, "C", 0), visit(4, "D", 3)];
    assert!(is_well_formed_traversal(&root, &visits));
}

#[test]
fn root_alone_is_one_empty_element() {
    let root = node(0, "TranslationUnit", true);
    let text = run(&root, &vec![], &AstXmlOption::default());
    assert_eq!(text, "<?xml version=\"1.0\" encoding=\"utf-8\"?>\n<TranslationUnit />");
}

#[test]
fn siblings_at_several_depths_close_in_one_visit() {
    let root = node(0, "R", true);
    let visits = vec![
        visit(1, "A", 0),
        visit(2, "B", 1),
        visit(3, "C", 2),
        visit(4, "D", 3),
        visit(5, "E", 0),
        visit(6, "F", 5),
        visit(7, "G", 5),
    ];
    let text = run(&root, &visits, &AstXmlOption::default());
    assert_eq!(
        text,
        "<?xml version=\"1.0\" encoding=\"utf-8\"?>\n<R>\n  <A>\n    <B>\n      <C>\n        <D />\n      </C>\n    </B>\n  </A>\n  <E>\n    <F />\n    <G />\n  </E>\n</R>"
    );
}

#[test]
fn every_open_has_its_close() {
    let root = node(0, "R", false);
    let visits = vec![
        visit(1, "A", 0),
        header_visit(2, "B", 1),
        visit(3, "C", 2),
        visit(4, "D", 1),
        header_visit(5, "E", 0),
        header_visit(6, "F", 5),
        visit(7, "G", 6),
        visit(8, "H", 0),
    ];
    for option in [AstXmlOption::default(), skipping()] {
        let seen = read_back(&run(&root, &visits, &option));
        let opens = seen.iter().filter(|e| e.starts_with('+')).count();
        let closes = seen.iter().filter(|e| e.starts_with('-')).count();
        assert_eq!(opens, closes);
        let mut depth: i64 = 0;
        for event in &seen {
            depth += if event.starts_with('+') { 1 } else { -1 };
            assert!(depth >= 0);
        }
        assert_eq!(depth, 0);
    }
}

#[test]
fn elements_open_in_the_order_of_the_visits() {
    let root = node(0, "R", true);
    let visits = vec![
        visit(1, "A", 0),
        visit(2, "B", 1),
        visit(3, "C", 1),
        visit(4, "D", 3),
        visit(5, "E", 0),
    ];
    let seen = read_back(&run(&root, &visits, &AstXmlOption::default()));
    let opens: Vec<&str> =
        seen.iter().filter(|e| e.starts_with('+')).map(|e| &e[1..]).collect();
    assert_eq!(opens, vec!["R", "A", "B", "C", "D", "E"]);
    assert_eq!(
        seen,
        vec!["+R", "+A", "+B", "-B", "+C", "+D", "-D", "-C", "-A", "+E", "-E", "-R"]
    );
}

#[test]
fn skipped_node_leaves_its_children_in_its_place() {
    let root = node(0, "R", false);
    let visits = vec![
        visit(1, "A", 0),
        header_visit(2, "B", 1),
        visit(3, "C", 2),
        header_visit(4, "D", 3),
        visit(5, "E", 4),
        visit(6, "F", 2),
        visit(7, "G", 1),
    ];
    let kept = read_back(&run(&root, &visits, &skipping()));
    assert_eq!(
        kept,
        vec!["+R", "+A", "+C", "+E", "-E", "-C", "+F", "-F", "+G", "-G", "-A", "-R"]
    );
    let all = read_back(&run(&root, &visits, &AstXmlOption::default()));
    assert_eq!(
        all,
        vec![
            "+R", "+A", "+B", "+C", "+D", "+E", "-E", "-D", "-C", "+F", "-F", "-B", "+G", "-G",
            "-A", "-R"
        ]
    );
}

#[test]
fn root_has_an_element_even_outside_the_main_file() {
    let root = node(0, "TranslationUnit", false);
    let visits = vec![header_visit(1, "A", 0), header_visit(2, "B", 1)];
    let text = run(&root, &visits, &skipping());
    assert_eq!(text, "<?xml version=\"1.0\" encoding=\"utf-8\"?>\n<TranslationUnit />");
}

#[test]
fn cousins_may_share_an_identity() {
    let root = node(0, "R", true);
    let visits = vec![visit(1, "A", 0), visit(5, "X", 1), visit(2, "B", 0), visit(5, "Y", 2)];
    let seen = read_back(&run(&root, &visits, &AstXmlOption::default()));
    assert_eq!(seen, vec!["+R", "+A", "+X", "-X", "-A", "+B", "+Y", "-Y", "-B", "-R"]);
}

#[test]
fn session_goes_through_a_tree_step_by_step() {
    let root = node(0, "R", true);
    let option = AstXmlOption::default();
    let mut sink = XmlSink::new();
    let mut session = Session::begin(&root, &option, &mut sink);
    assert!(!session.has_failed());
    assert_eq!(session.directive(), VisitDirective::Recurse);
    assert!(session.is_open(0));
    assert!(!session.is_open(1));
    assert_eq!(session.visit(&mut sink, &node(1, "A", true), 0), VisitDirective::Recurse);
    assert_eq!(session.visit(&mut sink, &node(2, "B", true), 1), VisitDirective::Recurse);
    assert!(session.is_open(1) && session.is_open(2));
    assert_eq!(written(&sink), "<?xml version=\"1.0\" encoding=\"utf-8\"?>\n<R>\n  <A>\n    <B");
    assert_eq!(session.visit(&mut sink, &node(3, "C", true), 0), VisitDirective::Recurse);
    assert!(!session.is_open(1) && !session.is_open(2) && session.is_open(3));
    assert_eq!(
        written(&sink),
        "<?xml version=\"1.0\" encoding=\"utf-8\"?>\n<R>\n  <A>\n    <B />\n  </A>\n  <C"
    );
    assert!(session.finish(&mut sink).is_ok());
    assert_eq!(
        written(&sink),
        "<?xml version=\"1.0\" encoding=\"utf-8\"?>\n<R>\n  <A>\n    <B />\n  </A>\n  <C />\n</R>"
    );
}

#[test]
fn nothing_is_written_after_a_failure() {
    let root = node(0, "R", true);
    let option = AstXmlOption::default();
    let mut sink = XmlSink::new();
    let mut session = Session::begin(&root, &option, &mut sink);
    assert_eq!(session.visit(&mut sink, &node(1, "A", true), 0), VisitDirective::Recurse);
    assert_eq!(session.visit(&mut sink, &node(2, "B", true), 1), VisitDirective::Recurse);
    let before = sink.as_bytes().clone();
    assert_eq!(session.record(Err(refusal())), VisitDirective::Break);
    assert!(session.has_failed());
    assert_eq!(session.directive(), VisitDirective::Break);
    assert_eq!(session.visit(&mut sink, &node(3, "C", true), 0), VisitDirective::Break);
    assert_eq!(sink.as_bytes(), &before);
    assert!(session.is_open(3));
    assert!(!session.is_open(1));
    let outcome = session.finish(&mut sink);
    assert!(matches!(
        outcome,
        Err(AstXmlError::Xml(xml::writer::Error::LastElementNameNotAvailable))
    ));
    assert_eq!(sink.into_bytes(), before);
}

#[test]
fn first_failure_is_the_outcome() {
    let root = node(0, "R", true);
    let option = AstXmlOption::default();
    let mut sink = XmlSink::new();
    let mut session = Session::begin(&root, &option, &mut sink);
    assert_eq!(session.record(Ok(())), VisitDirective::Recurse);
    assert!(!session.has_failed());
    assert_eq!(
        session.record(Err(AstXmlError::AstLoad("first".to_string()))),
        VisitDirective::Break
    );
    assert_eq!(session.record(Err(refusal())), VisitDirective::Break);
    assert_eq!(session.record(Ok(())), VisitDirective::Break);
    match session.finish(&mut sink) {
        Err(AstXmlError::AstLoad(path)) => assert_eq!(path, "first"),
        _ => panic!("the first failure was lost"),
    }
}

#[test]
fn writer_that_refuses_a_close_ends_the_run() {
    let root = node(0, "R", true);
    let option = AstXmlOption::default();
    let mut sink = XmlSink::new();
    let mut session = Session::begin(&root, &option, &mut sink);
    session.visit(&mut sink, &node(1, "A", true), 0);
    // Closing behind the session's back leaves it one close too many to write.
    sink.close().unwrap();
    sink.close().unwrap();
    let before = sink.as_bytes().clone();
    assert_eq!(session.visit(&mut sink, &node(2, "B", true), 0), VisitDirective::Break);
    assert!(session.has_failed());
    assert_eq!(sink.as_bytes(), &before);
    assert!(matches!(
        session.finish(&mut sink),
        Err(AstXmlError::Xml(xml::writer::Error::LastElementNameNotAvailable))
    ));
    assert_eq!(sink.into_bytes(), before);
}

#[test]
fn run_is_always_taken_and_leaves_the_depth_as_it_was() {
    let root = node(0, "R", false);
    let visits = vec![
        visit(1, "A", 0),
        header_visit(2, "B", 1),
        visit(3, "C", 2),
        visit(4, "D", 0),
    ];
    for option in [AstXmlOption::default(), skipping()] {
        let mut sink = XmlSink::new();
        sink.open("outer", &vec![]).unwrap();
        sink.open("inner", &vec![]).unwrap();
        let before = sink.as_bytes().len();
        assert!(parse_translation_unit(&root, &visits, &mut sink, &option).is_ok());
        assert!(sink.as_bytes().len() > before);
        assert!(sink.close().is_ok());
        assert!(sink.close().is_ok());
        assert!(sink.close().is_err());
    }
}

#[test]
fn finish_fails_where_the_writer_has_too_few_elements_open() {
    let root = node(0, "R", true);
    let option = AstXmlOption::default();
    let mut sink = XmlSink::new();
    let mut session = Session::begin(&root, &option, &mut sink);
    session.visit(&mut sink, &node(1, "A", true), 0);
    session.visit(&mut sink, &node(2, "B", true), 1);
    sink.close().unwrap();
    sink.close().unwrap();
    let before = sink.as_bytes().clone();
    let outcome = session.finish(&mut sink);
    match outcome {
        Err(error) => assert_eq!(error.message(), "$LastElementNameNotAvailable"),
        Ok(_) => panic!("a close was refused and the run did not fail"),
    }
    assert!(sink.as_bytes().starts_with(&before));
    assert!(sink.as_bytes().ends_with(b"</R>"));
    assert!(sink.close().is_err());
}

#[test]
fn visit_fails_at_the_first_close_too_many() {
    let root = node(0, "R", true);
    let option = AstXmlOption::default();
    let mut sink = XmlSink::new();
    let mut session = Session::begin(&root, &option, &mut sink);
    session.visit(&mut sink, &node(1, "A", true), 0);
    session.visit(&mut sink, &node(2, "B", true), 1);
    session.visit(&mut sink, &node(3, "C", true), 2);
    sink.close().unwrap();
    sink.close().unwrap();
    sink.close().unwrap();
    // One element is left open and three are to be closed: one close is
    // taken, the second is refused, and the open of the node is not written.
    assert_eq!(session.visit(&mut sink, &node(4, "D", true), 0), VisitDirective::Break);
    assert!(written(&sink).ends_with("</R>"));
    assert!(!written(&sink).contains("<D"));
    assert!(session.is_open(4));
    assert!(session.finish(&mut sink).is_err());
}

#[test]
fn second_document_goes_after_the_first() {
    let root = node(0, "R", true);
    let option = AstXmlOption::default();
    let visits = vec![visit(1, "A", 0), visit(2, "B", 1)];
    let mut sink = XmlSink::new();
    parse_translation_unit(&root, &visits, &mut sink, &option).unwrap();
    let complete = sink.as_bytes().clone();
    assert!(parse_translation_unit(&root, &visits, &mut sink, &option).is_ok());
    assert!(sink.as_bytes().starts_with(&complete));
}
