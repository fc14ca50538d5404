use lapce_completion::snippet::{Snippet, SnippetElement};

#[test]
fn test_snippet() {
    let s = "start $1${2:second ${3:third}} $0";
    let parsed = Snippet::parse(s);
    assert_eq!(s, parsed.to_string());

    let text = "start second third ";
    assert_eq!(text, parsed.text());

    assert_eq!(
        vec![(1, (6, 6)), (2, (6, 18)), (3, (13, 18)), (0, (19, 19))],
        parsed.tabs(0)
    );
}

#[test]
fn empty_placeholder_preserves_stop() {
    let parsed = Snippet::parse("${1:}");
    assert_eq!(parsed.elements.len(), 1);
    match &parsed.elements[0] {
        SnippetElement::PlaceHolder(tab, children) => {
            assert_eq!(*tab, 1);
            assert_eq!(children.len(), 1);
            match &children[0] {
                SnippetElement::Text(t) => assert_eq!(t.as_str(), ""),
                other => panic!("expected an empty text child, got {:?}", other.to_string()),
            }
            assert_eq!(children[0].len(), 0);
            assert!(children[0].is_empty());
        }
        other => panic!("expected a placeholder, got {:?}", other.to_string()),
    }
    assert_eq!(parsed.to_string(), "${1:}");
    assert_eq!(parsed.tabs(0), vec![(1, (0, 0))]);
}

#[test]
fn empty_template() {
    let parsed = Snippet::parse("");
    assert_eq!(parsed.elements.len(), 0);
    assert_eq!(parsed.to_string(), "");
    assert_eq!(parsed.text(), "");
    assert_eq!(parsed.tabs(0), vec![]);
}

#[test]
fn plain_text_round_trips() {
    let parsed = Snippet::parse("just text, no stops");
    assert_eq!(parsed.to_string(), "just text, no stops");
    assert_eq!(parsed.text(), "just text, no stops");
    assert_eq!(parsed.tabs(0), vec![]);
}

#[test]
fn tabstop_forms() {
    // both $n and ${n} parse; both serialize back as $n
    let parsed = Snippet::parse("a$1b${2}c");
    assert_eq!(parsed.text(), "abc");
    assert_eq!(parsed.tabs(0), vec![(1, (1, 1)), (2, (2, 2))]);
    assert_eq!(parsed.to_string(), "a$1b$2c");
}

#[test]
fn dollar_without_digits_is_text() {
    // `$a` is no tab stop; the parser stops at the bare `$` and drops the tail
    let parsed = Snippet::parse("$a");
    assert_eq!(parsed.elements.len(), 0);
    assert_eq!(parsed.to_string(), "");
}

#[test]
fn escapes_unescape_in_text() {
    // `\$`, `\\` and `\}` each collapse to the bare character
    let parsed = Snippet::parse("a\\$b");
    assert_eq!(parsed.text(), "a$b");
    let parsed = Snippet::parse("a\\\\b");
    assert_eq!(parsed.text(), "a\\b");
    let parsed = Snippet::parse("a\\}b");
    assert_eq!(parsed.text(), "a}b");
}

#[test]
fn escaped_tabstop_is_literal() {
    let parsed = Snippet::parse("\\$1");
    assert_eq!(parsed.text(), "$1");
    assert_eq!(parsed.tabs(0), vec![]);
}

#[test]
fn top_level_brace_is_text() {
    let parsed = Snippet::parse("a}b");
    assert_eq!(parsed.text(), "a}b");
    assert_eq!(parsed.to_string(), "a}b");
}

#[test]
fn unterminated_placeholder_truncates() {
    // no closing brace anywhere: parsing stops at the `$`
    let parsed = Snippet::parse("${1:abc");
    assert_eq!(parsed.elements.len(), 0);
    assert_eq!(parsed.to_string(), "");
}

#[test]
fn stray_backslash_truncates() {
    // a backslash before an unescapable character stops the parse
    let parsed = Snippet::parse("a\\b");
    assert_eq!(parsed.elements.len(), 1);
    assert_eq!(parsed.to_string(), "a");
}

#[test]
fn nested_unterminated_placeholder_closes_itself() {
    // the nested stop's `}` satisfies the lookahead; the recursive parse
    // consumes it and the outer placeholder ends at the input's end
    let parsed = Snippet::parse("${1:${2:x}");
    assert_eq!(parsed.to_string(), "${1:${2:x}}");
    assert_eq!(parsed.text(), "x");
    assert_eq!(parsed.tabs(0), vec![(1, (0, 1)), (2, (0, 1))]);
}

#[test]
fn newline_blocks_placeholder_lookahead() {
    // the first `}` after `${1:` comes after a newline, so no placeholder
    // is recognized; the text run then stops at the `$`
    let parsed = Snippet::parse("x${1:a\nb}");
    assert_eq!(parsed.elements.len(), 1);
    assert_eq!(parsed.to_string(), "x");
}

#[test]
fn placeholder_spans_cover_children() {
    let parsed = Snippet::parse("${1:ab${2:cd}}e");
    assert_eq!(parsed.text(), "abcde");
    assert_eq!(parsed.tabs(0), vec![(1, (0, 4)), (2, (2, 4))]);
    assert_eq!(parsed.tabs(10), vec![(1, (10, 14)), (2, (12, 14))]);
    assert_eq!(parsed.to_string(), "${1:ab${2:cd}}e");
}

#[test]
fn element_text_and_len() {
    let parsed = Snippet::parse("${1:ab$2cd}");
    assert_eq!(parsed.elements.len(), 1);
    let el = &parsed.elements[0];
    assert_eq!(el.text(), "abcd");
    assert_eq!(el.len(), 4);
    assert!(!el.is_empty());
    assert_eq!(el.to_string(), "${1:ab$2cd}");
}

#[test]
fn elements_tabs_offsets() {
    let parsed = Snippet::parse("ab$1cd$2");
    assert_eq!(
        Snippet::elements_tabs(&parsed.elements, 5),
        vec![(1, (7, 7)), (2, (9, 9))]
    );
}

#[test]
fn escaped_brace_inside_placeholder_unescapes() {
    // the escaped `}` becomes part of the content text, so the value does
    // not serialize back to the escaped form
    let parsed = Snippet::parse("${1:a\\}b}");
    assert_eq!(parsed.text(), "a}b");
    assert_eq!(parsed.to_string(), "${1:a}b}");
}

#[test]
fn huge_tabstop_number_truncates() {
    // a digit run that does not fit in usize is not a tab stop
    let parsed = Snippet::parse("$99999999999999999999999999");
    assert_eq!(parsed.elements.len(), 0);
    assert_eq!(parsed.to_string(), "");
}
