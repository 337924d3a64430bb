use nowui::lsp::line_index::LineIndex;
use nowui::lsp::semantic::{diagnostics, semantic_tokens, Documents, ParseError};
use nowui::lsp::tokenizer::{
    classify_ident, is_ident_continue, token_types, tokenize, COMMENT, KEYWORD, NAMESPACE, NUMBER, PROPERTY,
    STRING, TYPE, VARIABLE,
};

fn kinds(source: &str) -> Vec<(String, u32)> {
    tokenize(source).into_iter().map(|t| (source.chars().skip(t.start).take(t.len).collect(), t.kind)).collect()
}

#[test]
fn line_comment_is_one_token() {
    assert_eq!(kinds("// hello\nText"), vec![("// hello".to_string(), COMMENT), ("Text".to_string(), TYPE)]);
}

#[test]
fn backtick_string_including_empty_ones() {
    assert_eq!(kinds("`hello`"), vec![("`hello`".to_string(), STRING)]);
    assert_eq!(kinds("``"), vec![("``".to_string(), STRING)]);
}

#[test]
fn quoted_expr_string_literal() {
    assert_eq!(kinds(r#""admin""#), vec![(r#""admin""#.to_string(), STRING)]);
}

#[test]
fn import_directive_is_one_namespace_token() {
    assert_eq!(kinds("# widgets/Badge.nowui"), vec![("# widgets/Badge.nowui".to_string(), NAMESPACE)]);
}

#[test]
fn widget_kind_is_type_style_key_is_property_state_path_is_variable() {
    assert_eq!(
        kinds("Text text-lg {value: state.username}"),
        vec![
            ("Text".to_string(), TYPE),
            ("text-lg".to_string(), PROPERTY),
            ("value".to_string(), PROPERTY),
            ("state.username".to_string(), VARIABLE),
        ]
    );
}

#[test]
fn keywords_are_recognized() {
    assert_eq!(
        kinds("if state.x { } else { }"),
        vec![
            ("if".to_string(), KEYWORD),
            ("state.x".to_string(), VARIABLE),
            ("else".to_string(), KEYWORD),
        ]
    );
}

#[test]
fn compact_fraction_and_decimal_classes_stay_one_token() {
    assert_eq!(kinds("w-1/2"), vec![("w-1/2".to_string(), PROPERTY)]);
    assert_eq!(kinds("py-3.5"), vec![("py-3.5".to_string(), PROPERTY)]);
}

#[test]
fn variant_prefixed_style_key_is_one_token() {
    assert_eq!(kinds("hover:bg-blue-600"), vec![("hover:bg-blue-600".to_string(), PROPERTY)]);
}

#[test]
fn binding_colon_with_space_does_not_merge_key_and_value() {
    assert_eq!(
        kinds("{onClick: state.save}"),
        vec![("onClick".to_string(), PROPERTY), ("state.save".to_string(), VARIABLE)]
    );
}

#[test]
fn standalone_number_in_a_comparison() {
    assert_eq!(
        kinds("state.count == 3"),
        vec![("state.count".to_string(), VARIABLE), ("3".to_string(), NUMBER)]
    );
}

#[test]
fn first_char_is_line_zero_col_zero() {
    let idx = LineIndex::new("abc\ndef");
    assert_eq!(idx.position(0), (0, 0));
}

#[test]
fn char_after_a_newline_starts_the_next_line() {
    let idx = LineIndex::new("abc\ndef");
    assert_eq!(idx.position(4), (1, 0));
    assert_eq!(idx.position(5), (1, 1));
}

#[test]
fn a_char_outside_the_bmp_counts_as_two_utf16_units() {
    // U+1F600 (an emoji) is one `char` but two UTF-16 code units.
    let idx = LineIndex::new("😀x\ny");
    assert_eq!(idx.position(1), (0, 2), "the `x` after the emoji is 2 UTF-16 units in, not 1");
    assert_eq!(idx.position(3), (1, 0));
}

#[test]
fn clamps_to_the_end_of_the_source() {
    let idx = LineIndex::new("abc");
    assert_eq!(idx.position(100), (0, 3));
}

#[test]
fn semantic_tokens_are_relative_to_one_another() {
    let t = semantic_tokens("Text `a`\n  if x");
    let all: Vec<(u32, u32, u32, u32)> = t.iter().map(|x| (x.delta_line, x.delta_start, x.length, x.token_type)).collect();
    assert_eq!(all, vec![(0, 0, 4, TYPE), (0, 5, 3, STRING), (1, 2, 2, KEYWORD), (0, 3, 1, PROPERTY)]);
}

#[test]
fn an_error_covers_at_least_one_character() {
    let d = diagnostics("ab\ncd", &vec![ParseError { start: 3, end: 3, message: "bad".to_string() }]);
    assert_eq!(d.len(), 1);
    assert_eq!((d[0].start_line, d[0].start_col, d[0].end_line, d[0].end_col), (1, 0, 1, 1));
    assert_eq!(d[0].message, "bad");
}

#[test]
fn open_documents_answer_until_they_are_closed() {
    let mut docs = Documents::new();
    assert!(docs.semantic_tokens_full("a").is_none());
    docs.did_open("a", "Text");
    assert_eq!(docs.semantic_tokens_full("a").unwrap().len(), 1);
    assert!(docs.did_change("a", &vec!["Text if".to_string()]));
    assert_eq!(docs.semantic_tokens_full("a").unwrap().len(), 2);
    assert!(!docs.did_change("a", &vec![]));
    docs.did_close("a");
    assert!(docs.semantic_tokens_full("a").is_none());
}

#[test]
fn identifiers_are_told_apart() {
    assert_eq!(classify_ident("Button"), TYPE);
    assert_eq!(classify_ident("else"), KEYWORD);
    assert_eq!(classify_ident("a.b"), VARIABLE);
    assert_eq!(classify_ident("py-3.5"), PROPERTY);
    assert!(is_ident_continue('-') && !is_ident_continue(' '));
    assert_eq!(token_types()[NUMBER as usize], "number");
    assert_eq!(token_types()[NAMESPACE as usize], "namespace");
    assert_eq!(token_types()[COMMENT as usize], "comment");
}
