use cstree2d::syntax::{TokenKind, DEDENT_RAW, INDENT_RAW, NEWLINE_RAW};
use cstree2d::text::TextState;

#[derive(Debug, Clone, Copy, PartialEq, Eq)]
enum TestSyntax {
    Root,
    Text,
}

impl TokenKind for TestSyntax {
    fn encoding(self) -> u32 {
        self.into_raw()
    }

    fn decoding(raw: u32) -> Self {
        Self::from_raw(raw)
    }

    fn in_domain(raw: u32) -> bool {
        Self::accepts(raw)
    }

    fn fixed_text(self) -> Option<&'static str> {
        self.static_text()
    }

    fn encoding_round_trip(self) {}

    fn decoding_round_trip(_raw: u32) {}

    fn accepts(raw: u32) -> bool {
        raw <= 1
    }

    fn from_raw(raw: u32) -> Self {
        match raw {
            0 => TestSyntax::Root,
            1 => TestSyntax::Text,
            _ => panic!("Invalid raw syntax kind: {}", raw),
        }
    }

    fn into_raw(self) -> u32 {
        match self {
            TestSyntax::Root => 0,
            TestSyntax::Text => 1,
        }
    }

    fn static_text(self) -> Option<&'static str> {
        None
    }
}

const TEXT: u32 = 1;

fn take(state: &mut TextState, kind: u32, text: &str) -> bool {
    state.apply::<TestSyntax>(kind, text)
}

#[test]
fn state_starts_empty() {
    let state = TextState::new();
    assert_eq!(state.text(), "");
    assert_eq!(state.depth(), 0);
    assert!(!state.is_pending());
    assert_eq!(state.into_text(), "");
}

#[test]
fn tokens_are_written_in_order() {
    let mut state = TextState::new();
    assert!(take(&mut state, TEXT, "hello"));
    assert!(take(&mut state, TEXT, " "));
    assert!(take(&mut state, TEXT, "world"));
    assert_eq!(state.into_text(), "hello world");
}

#[test]
fn indent_pushes_and_sets_pending() {
    let mut state = TextState::new();
    assert!(take(&mut state, INDENT_RAW, "    "));
    assert_eq!(state.depth(), 1);
    assert!(state.is_pending());
    assert_eq!(state.text(), "");
}

#[test]
fn stack_is_written_in_push_order() {
    let mut state = TextState::new();
    assert!(take(&mut state, INDENT_RAW, "a"));
    assert!(take(&mut state, INDENT_RAW, "b"));
    assert!(take(&mut state, INDENT_RAW, "c"));
    assert!(take(&mut state, TEXT, "x"));
    assert_eq!(state.text(), "abcx");
    assert!(!state.is_pending());
    assert_eq!(state.depth(), 3);
}

#[test]
fn indentation_is_written_once_per_line() {
    let mut state = TextState::new();
    assert!(take(&mut state, INDENT_RAW, "  "));
    assert!(take(&mut state, TEXT, "a"));
    assert!(take(&mut state, TEXT, "b"));
    assert!(take(&mut state, NEWLINE_RAW, "\n"));
    assert!(take(&mut state, TEXT, "c"));
    assert!(take(&mut state, TEXT, "d"));
    assert_eq!(state.into_text(), "  ab\n  cd");
}

#[test]
fn blank_line_carries_no_indentation() {
    let mut state = TextState::new();
    assert!(take(&mut state, INDENT_RAW, "  "));
    assert!(take(&mut state, NEWLINE_RAW, "\n"));
    assert!(take(&mut state, NEWLINE_RAW, "\n"));
    assert!(take(&mut state, TEXT, "x"));
    assert_eq!(state.into_text(), "\n\n  x");
}

#[test]
fn newline_at_zero_indentation_leaves_nothing_pending() {
    let mut state = TextState::new();
    assert!(take(&mut state, NEWLINE_RAW, "\n"));
    assert!(!state.is_pending());
    assert!(take(&mut state, TEXT, "x"));
    assert_eq!(state.into_text(), "\nx");
}

#[test]
fn newline_with_open_indent_sets_pending() {
    let mut state = TextState::new();
    assert!(take(&mut state, INDENT_RAW, "  "));
    assert!(take(&mut state, TEXT, "x"));
    assert!(!state.is_pending());
    assert!(take(&mut state, NEWLINE_RAW, "\n"));
    assert!(state.is_pending());
}

#[test]
fn newline_text_is_the_one_constant() {
    let mut state = TextState::new();
    assert!(take(&mut state, TEXT, "a"));
    assert!(take(&mut state, NEWLINE_RAW, "ignored"));
    assert!(take(&mut state, NEWLINE_RAW, ""));
    assert_eq!(state.into_text(), "a\n\n");
}

#[test]
fn dedent_pops_the_most_recent_fragment() {
    let mut state = TextState::new();
    assert!(take(&mut state, INDENT_RAW, "  "));
    assert!(take(&mut state, INDENT_RAW, "# "));
    assert!(take(&mut state, DEDENT_RAW, ""));
    assert_eq!(state.depth(), 1);
    assert!(state.is_pending());
    assert!(take(&mut state, TEXT, "x"));
    assert_eq!(state.into_text(), "  x");
}

#[test]
fn dedent_text_plays_no_part() {
    let mut state = TextState::new();
    assert!(take(&mut state, INDENT_RAW, "  "));
    assert!(take(&mut state, DEDENT_RAW, "junk"));
    assert_eq!(state.depth(), 0);
    assert_eq!(state.text(), "");
}

#[test]
fn dedent_with_nothing_open_is_rejected() {
    let mut state = TextState::new();
    assert!(take(&mut state, TEXT, "a"));
    assert!(!take(&mut state, DEDENT_RAW, ""));
    assert_eq!(state.text(), "a");
    assert_eq!(state.depth(), 0);
    assert!(!state.is_pending());
}

#[test]
fn more_dedents_than_indents_are_rejected() {
    let mut state = TextState::new();
    assert!(take(&mut state, INDENT_RAW, "  "));
    assert!(take(&mut state, INDENT_RAW, "  "));
    assert!(take(&mut state, DEDENT_RAW, ""));
    assert!(take(&mut state, DEDENT_RAW, ""));
    assert!(!take(&mut state, DEDENT_RAW, ""));
    assert_eq!(state.depth(), 0);
}

#[test]
fn kind_outside_the_domain_is_rejected() {
    let mut state = TextState::new();
    assert!(take(&mut state, INDENT_RAW, "  "));
    assert!(!take(&mut state, 2, "x"));
    assert!(!take(&mut state, u32::MAX - 3, "x"));
    assert_eq!(state.text(), "");
    assert_eq!(state.depth(), 1);
    assert!(state.is_pending());
}

#[test]
fn pending_with_empty_stack_writes_nothing_extra() {
    let mut state = TextState::new();
    assert!(take(&mut state, INDENT_RAW, "    "));
    assert!(take(&mut state, DEDENT_RAW, ""));
    assert!(state.is_pending());
    assert!(take(&mut state, TEXT, "x"));
    assert_eq!(state.into_text(), "x");
}

#[test]
fn text_has_one_newline_for_each_newline_leaf() {
    let mut state = TextState::new();
    assert!(take(&mut state, TEXT, "start"));
    assert!(take(&mut state, NEWLINE_RAW, "\n"));
    assert!(take(&mut state, INDENT_RAW, "  "));
    assert!(take(&mut state, TEXT, "level1"));
    assert!(take(&mut state, NEWLINE_RAW, "\n"));
    assert!(take(&mut state, INDENT_RAW, "  "));
    assert!(take(&mut state, TEXT, "level2"));
    assert!(take(&mut state, NEWLINE_RAW, "\n"));
    assert!(take(&mut state, DEDENT_RAW, ""));
    assert!(take(&mut state, DEDENT_RAW, ""));
    assert!(take(&mut state, NEWLINE_RAW, "\n"));
    assert!(take(&mut state, TEXT, "end"));
    let text = state.into_text();
    assert_eq!(text, "start\n  level1\n    level2\n\nend");
    assert_eq!(text.matches('\n').count(), 4);
}
