use clangastana::decimal::{decimal_string, push_decimal};
use clangastana::error::AstXmlError;
use clangastana::libclang::{Clang, ClangSlot, Index, TranslationUnit};
use clangastana::node::{AstNode, SourceLocation, TypeInfo, XmlAttribute};
use clangastana::option::{input_kind, AstXmlOption, InputKind};

fn plain_node(id: u64, kind: &str) -> AstNode {
    AstNode {
        id,
        in_main_file: true,
        kind: kind.to_string(),
        usr: None,
        location: None,
        linkage: None,
        module: None,
        type_info: None,
        enum_constant_value: None,
        comment: None,
        display_name: None,
    }
}

fn pairs(attributes: &Vec<XmlAttribute>) -> Vec<(String, String)> {
    attributes.iter().map(|a| (a.name.clone(), a.value.clone())).collect()
}

fn pair(name: &str, value: &str) -> (String, String) {
    (name.to_string(), value.to_string())
}

#[test]
fn decimal_of_single_digits() {
    assert_eq!(decimal_string(0), "0");
    assert_eq!(decimal_string(7), "7");
    assert_eq!(decimal_string(9), "9");
}

#[test]
fn decimal_of_longer_numbers() {
    assert_eq!(decimal_string(10), "10");
    assert_eq!(decimal_string(407), "407");
    assert_eq!(decimal_string(1000), "1000");
    assert_eq!(decimal_string(4294967295), "4294967295");
}

#[test]
fn decimal_of_the_largest_number() {
    assert_eq!(decimal_string(u64::MAX), "18446744073709551615");
}

#[test]
fn decimal_agrees_with_the_standard_library() {
    let mut n: u64 = 1;
    for _ in 0..19 {
        assert_eq!(decimal_string(n), n.to_string());
        assert_eq!(decimal_string(n - 1), (n - 1).to_string());
        n *= 10;
    }
}

#[test]
fn push_decimal_appends_to_what_is_there() {
    let mut text = String::from("line ");
    push_decimal(&mut text, 42);
    assert_eq!(text, "line 42");
    push_decimal(&mut text, 0);
    assert_eq!(text, "line 420");
}

#[test]
fn location_is_spelled_path_line_column_offset() {
    let location =
        SourceLocation { file: Some("src/foo.c".to_string()), line: 1, column: 5, offset: 4 };
    assert_eq!(location.to_text(), "src/foo.c:1:5:4");
}

#[test]
fn location_without_a_file_has_an_empty_path() {
    let location = SourceLocation { file: None, line: 12, column: 0, offset: 4294967295 };
    assert_eq!(location.to_text(), ":12:0:4294967295");
}

#[test]
fn node_without_metadata_has_no_attributes() {
    assert!(plain_node(1, "CompoundStmt").attributes().is_empty());
}

#[test]
fn attributes_come_in_the_fixed_order() {
    let node = AstNode {
        id: 1,
        in_main_file: true,
        kind: "EnumConstantDecl".to_string(),
        usr: Some("c:@E@e@A".to_string()),
        location: Some(SourceLocation {
            file: Some("e.c".to_string()),
            line: 3,
            column: 2,
            offset: 17,
        }),
        linkage: Some("External".to_string()),
        module: Some("std.io".to_string()),
        type_info: Some(TypeInfo { kind: "Int".to_string(), display_name: "int".to_string() }),
        enum_constant_value: Some((5, 5)),
        comment: Some("/// five".to_string()),
        display_name: Some("A".to_string()),
    };
    assert_eq!(
        pairs(&node.attributes()),
        vec![
            pair("usr", "c:@E@e@A"),
            pair("src", "e.c:3:2:17"),
            pair("linkage", "External"),
            pair("module", "std.io"),
            pair("type_kind", "Int"),
            pair("type_display_name", "int"),
            pair("enum_constant_value", "5"),
            pair("comment", "/// five"),
            pair("display_name", "A"),
        ]
    );
}

#[test]
fn attribute_with_empty_text_is_left_out() {
    let mut node = plain_node(1, "VarDecl");
    node.usr = Some(String::new());
    node.linkage = Some("Internal".to_string());
    node.module = Some(String::new());
    node.type_info = Some(TypeInfo { kind: "Int".to_string(), display_name: String::new() });
    node.comment = Some(String::new());
    node.display_name = Some("x".to_string());
    assert_eq!(
        pairs(&node.attributes()),
        vec![pair("linkage", "Internal"), pair("type_kind", "Int"), pair("display_name", "x")]
    );
}

#[test]
fn no_attribute_has_an_empty_value() {
    let mut node = plain_node(1, "VarDecl");
    node.usr = Some(String::new());
    node.location = Some(SourceLocation { file: None, line: 0, column: 0, offset: 0 });
    node.type_info = Some(TypeInfo { kind: String::new(), display_name: String::new() });
    node.enum_constant_value = Some((0, 0));
    let attributes = node.attributes();
    assert_eq!(pairs(&attributes), vec![pair("src", ":0:0:0"), pair("enum_constant_value", "0")]);
    assert!(attributes.iter().all(|a| !a.value.is_empty()));
}

#[test]
fn enum_constant_value_is_the_unsigned_value() {
    let mut node = plain_node(1, "EnumConstantDecl");
    node.enum_constant_value = Some((-1, 18446744073709551615));
    assert_eq!(
        pairs(&node.attributes()),
        vec![pair("enum_constant_value", "18446744073709551615")]
    );
}

#[test]
fn default_option_skips_nothing() {
    let option = AstXmlOption::default();
    assert!(option.arguments.is_empty());
    assert!(!option.skip_function_bodies);
    assert!(!option.skip_non_main_file);
}

#[test]
fn option_keeps_its_arguments() {
    let arguments = vec!["-I".to_string(), "include".to_string()];
    let option = AstXmlOption {
        arguments: arguments.as_slice(),
        skip_function_bodies: true,
        ..Default::default()
    };
    let copy = option.clone();
    assert_eq!(copy.arguments, arguments.as_slice());
    assert!(copy.skip_function_bodies);
    assert!(!copy.skip_non_main_file);
}

#[test]
fn path_that_ends_in_ast_names_a_precompiled_tree() {
    assert_eq!(input_kind("foo.ast"), InputKind::PrecompiledAst);
    assert_eq!(input_kind("/tmp/dir.c/foo.ast"), InputKind::PrecompiledAst);
    assert_eq!(input_kind(".ast"), InputKind::PrecompiledAst);
    assert_eq!(input_kind("h\u{e9}llo.ast"), InputKind::PrecompiledAst);
}

#[test]
fn other_paths_name_source_files() {
    assert_eq!(input_kind("foo.c"), InputKind::Source);
    assert_eq!(input_kind("foo.ast.c"), InputKind::Source);
    assert_eq!(input_kind("foo.AST"), InputKind::Source);
    assert_eq!(input_kind("ast"), InputKind::Source);
    assert_eq!(input_kind("foo.as"), InputKind::Source);
    assert_eq!(input_kind(""), InputKind::Source);
    assert_eq!(input_kind("\u{e9}ast"), InputKind::Source);
}

#[test]
fn load_error_names_the_file() {
    let error = AstXmlError::AstLoad("/tmp/foo.ast".to_string());
    assert_eq!(error.message(), "ast file \"/tmp/foo.ast\" load error");
}

#[test]
fn failed_parse_names_the_file_and_the_cause() {
    let error = AstXmlError::SourceLoad("src/foo.c".to_string(), clang::SourceError::Crash);
    assert_eq!(error.message(), "source file \"src/foo.c\" load error: Crash");
    let error =
        AstXmlError::SourceLoad(String::new(), clang::SourceError::AstDeserialization);
    assert_eq!(error.message(), "source file \"\" load error: AstDeserialization");
}

#[test]
fn missing_context_gives_its_reason() {
    let error = AstXmlError::Unavailable("an instance of `Clang` already exists".to_string());
    assert_eq!(
        error.message(),
        "parsing context unavailable: an instance of `Clang` already exists"
    );
}

#[test]
fn parse_error_is_shown_after_a_dollar_sign() {
    let error = AstXmlError::from(clang::SourceError::Crash);
    assert!(matches!(error, AstXmlError::Clang(clang::SourceError::Crash)));
    assert_eq!(error.message(), "$Crash");
    assert_eq!(AstXmlError::from(clang::SourceError::Unknown).message(), "$Unknown");
    assert_eq!(
        AstXmlError::from(clang::SourceError::AstDeserialization).message(),
        "$AstDeserialization"
    );
}

#[test]
fn writer_error_is_shown_after_a_dollar_sign() {
    let error = AstXmlError::from(xml::writer::Error::LastElementNameNotAvailable);
    assert!(matches!(error, AstXmlError::Xml(_)));
    assert_eq!(error.message(), "$LastElementNameNotAvailable");
    assert_eq!(
        AstXmlError::Xml(xml::writer::Error::DocumentStartAlreadyEmitted).message(),
        "$DocumentStartAlreadyEmitted"
    );
    assert_eq!(
        AstXmlError::Xml(xml::writer::Error::EndElementNameIsNotEqualToLastStartElementName)
            .message(),
        "$EndElementNameIsNotEqualToLastStartElementName"
    );
    assert_eq!(
        AstXmlError::Xml(xml::writer::Error::EndElementNameIsNotSpecified).message(),
        "$EndElementNameIsNotSpecified"
    );
}

#[test]
fn output_error_is_shown_after_a_dollar_sign() {
    let cause = std::io::Error::new(std::io::ErrorKind::Other, "disk full");
    let expected = format!("${:?}", cause);
    let error = AstXmlError::from(std::io::Error::new(std::io::ErrorKind::Other, "disk full"));
    assert!(matches!(error, AstXmlError::Io(_)));
    assert_eq!(error.message(), expected);
    assert!(error.message().starts_with('$'));
}

#[test]
fn slot_is_taken_once() {
    let mut slot = ClangSlot::new();
    assert!(slot.available());
    let first = Clang::new(&mut slot);
    assert!(first.is_ok());
    assert!(!slot.available());
    assert!(Clang::new(&mut slot).is_err());
    assert!(!slot.available());
}

#[test]
fn released_slot_can_be_taken_again() {
    let mut slot = ClangSlot::new();
    let context = Clang::new(&mut slot).unwrap();
    context.release(&mut slot);
    assert!(slot.available());
    assert!(Clang::new(&mut slot).is_ok());
}

#[test]
fn refused_attempt_leaves_the_slot_taken() {
    let mut slot = ClangSlot::new();
    let context = Clang::new(&mut slot).unwrap();
    assert!(Clang::new(&mut slot).is_err());
    assert!(Clang::new(&mut slot).is_err());
    context.release(&mut slot);
    assert!(Clang::new(&mut slot).is_ok());
}

#[test]
fn null_address_is_no_index() {
    assert!(Index::from_ptr(0).is_err());
    let index = Index::from_ptr(4096).unwrap();
    assert_eq!(index.ptr(), 4096);
}

#[test]
fn null_address_is_no_translation_unit() {
    assert!(TranslationUnit::from_ptr(0).is_err());
    let unit = TranslationUnit::from_ptr(usize::MAX).unwrap();
    assert_eq!(unit.ptr(), usize::MAX);
}
