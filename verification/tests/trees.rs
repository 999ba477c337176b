use cstree::build::GreenNodeBuilder;
use cstree::util::NodeOrToken;
use cstree::{RawSyntaxKind, Syntax};
use cstree2d::green::{extract_text, try_extract_text, try_extract_text_with, Builder, RawKind};
use cstree2d::syntax::TokenKind;
use cstree2d::extract_text_to_string;

#[derive(Debug, Clone, Copy, PartialEq, Eq)]
enum TestSyntax {
    Root,
    Text,
}

impl TokenKind for TestSyntax {
    fn encoding(self) -> u32 {
        self.into_raw()
    }

    fn decoding(raw: u32) -> Self {
        Self::from_raw(raw)
    }

    fn in_domain(raw: u32) -> bool {
        Self::accepts(raw)
    }

    fn fixed_text(self) -> Option<&'static str> {
        self.static_text()
    }

    fn encoding_round_trip(self) {}

    fn decoding_round_trip(_raw: u32) {}

    fn accepts(raw: u32) -> bool {
        raw <= 1
    }

    fn from_raw(raw: u32) -> Self {
        match raw {
            0 => TestSyntax::Root,
            1 => TestSyntax::Text,
            _ => panic!("Invalid raw syntax kind: {}", raw),
        }
    }

    fn into_raw(self) -> u32 {
        match self {
            TestSyntax::Root => 0,
            TestSyntax::Text => 1,
        }
    }

    fn static_text(self) -> Option<&'static str> {
        None
    }
}

#[derive(Debug, Clone, Copy, PartialEq, Eq)]
enum Wide {
    Low,
    High,
}

impl TokenKind for Wide {
    fn encoding(self) -> u32 {
        self.into_raw()
    }

    fn decoding(raw: u32) -> Self {
        Self::from_raw(raw)
    }

    fn in_domain(raw: u32) -> bool {
        Self::accepts(raw)
    }

    fn fixed_text(self) -> Option<&'static str> {
        self.static_text()
    }

    fn encoding_round_trip(self) {}

    fn decoding_round_trip(_raw: u32) {}

    fn accepts(raw: u32) -> bool {
        raw == 1 || raw == 40
    }

    fn from_raw(raw: u32) -> Self {
        match raw {
            1 => Wide::Low,
            40 => Wide::High,
            _ => panic!("Invalid raw syntax kind: {}", raw),
        }
    }

    fn into_raw(self) -> u32 {
        match self {
            Wide::Low => 1,
            Wide::High => 40,
        }
    }

    fn static_text(self) -> Option<&'static str> {
        None
    }
}

#[derive(Debug, Clone, Copy, PartialEq, Eq)]
enum Fixed {
    Root,
    Arrow,
}

impl Syntax for Fixed {
    fn from_raw(raw: RawSyntaxKind) -> Self {
        match raw.0 {
            0 => Fixed::Root,
            _ => Fixed::Arrow,
        }
    }

    fn into_raw(self) -> RawSyntaxKind {
        match self {
            Fixed::Root => RawSyntaxKind(0),
            Fixed::Arrow => RawSyntaxKind(1),
        }
    }

    fn static_text(self) -> Option<&'static str> {
        match self {
            Fixed::Root => None,
            Fixed::Arrow => Some("->"),
        }
    }
}

#[test]
fn new_builder_is_empty() {
    let builder: Builder<TestSyntax> = Builder::new();
    assert_eq!(builder.depth(), 0);
    assert!(!builder.is_complete());
    assert!(builder.has_room());
    let other: Builder<TestSyntax> = Builder::default();
    assert_eq!(other.depth(), 0);
    assert!(!other.is_complete());
}

#[test]
fn depth_follows_start_and_finish() {
    let mut builder: Builder<TestSyntax> = Builder::new();
    builder.start_node(TestSyntax::Root);
    assert_eq!(builder.depth(), 1);
    builder.start_node(TestSyntax::Root);
    assert_eq!(builder.depth(), 2);
    builder.token(TestSyntax::Text, "x");
    assert_eq!(builder.depth(), 2);
    builder.finish_node();
    assert_eq!(builder.depth(), 1);
    assert!(!builder.is_complete());
    builder.finish_node();
    assert_eq!(builder.depth(), 0);
    assert!(builder.is_complete());
}

#[test]
fn try_finish_node_with_nothing_started_says_so() {
    let mut builder: Builder<TestSyntax> = Builder::new();
    assert!(!builder.try_finish_node());
    assert_eq!(builder.depth(), 0);
    builder.start_node(TestSyntax::Root);
    assert!(builder.try_finish_node());
    assert!(!builder.try_finish_node());
    assert!(builder.is_complete());
}

#[test]
fn try_finish_hands_an_incomplete_builder_back() {
    let builder: Builder<TestSyntax> = Builder::new();
    let mut builder = match builder.try_finish() {
        Ok(_) => panic!("nothing was built"),
        Err(builder) => builder,
    };
    builder.start_node(TestSyntax::Root);
    builder.token(TestSyntax::Text, "x");
    let mut builder = match builder.try_finish() {
        Ok(_) => panic!("the root is not finished"),
        Err(builder) => builder,
    };
    assert_eq!(builder.depth(), 1);
    builder.finish_node();
    let (root, cache) = match builder.try_finish() {
        Ok(out) => out,
        Err(_) => panic!("the tree is complete"),
    };
    let cache = cache.expect("No cache");
    assert_eq!(extract_text::<TestSyntax>(&root, cache.interner()), "x");
}

#[test]
fn a_lone_token_is_no_tree() {
    let mut builder: Builder<TestSyntax> = Builder::new();
    builder.token(TestSyntax::Text, "x");
    assert!(!builder.is_complete());
    assert!(builder.try_finish().is_err());
}

#[test]
fn two_roots_are_no_tree() {
    let mut builder: Builder<TestSyntax> = Builder::new();
    builder.start_node(TestSyntax::Root);
    builder.finish_node();
    assert!(builder.is_complete());
    builder.start_node(TestSyntax::Root);
    builder.finish_node();
    assert!(!builder.is_complete());
}

#[test]
fn builder_stores_kinds_by_their_raw_code() {
    let mut builder: Builder<Wide> = Builder::new();
    builder.start_node(Wide::High);
    builder.token(Wide::Low, "a");
    builder.indent("  ");
    builder.dedent();
    builder.newline();
    builder.finish_node();
    let (root, cache) = builder.finish();
    let cache = cache.expect("No cache");
    assert_eq!(root.kind(), RawSyntaxKind(40));
    let mut seen = Vec::new();
    for child in root.children() {
        match child {
            NodeOrToken::Token(token) => {
                seen.push((token.kind().0, token.text(cache.interner()).map(String::from)));
            }
            NodeOrToken::Node(_) => panic!("no interior node was built"),
        }
    }
    assert_eq!(
        seen,
        vec![
            (1, Some(String::from("a"))),
            (u32::MAX - 2, Some(String::from("  "))),
            (u32::MAX - 1, Some(String::from(""))),
            (u32::MAX, Some(String::from("\n"))),
        ]
    );
}

#[test]
fn dedents_appends_that_many_dedent_leaves() {
    let mut builder: Builder<TestSyntax> = Builder::new();
    builder.start_node(TestSyntax::Root);
    builder.indent("a");
    builder.indent("b");
    builder.indent("c");
    builder.dedents(0);
    builder.dedents(2);
    builder.token(TestSyntax::Text, "x");
    builder.finish_node();
    let (root, cache) = builder.finish();
    let cache = cache.expect("No cache");
    let dedents = root
        .children()
        .filter(|child| match child {
            NodeOrToken::Token(token) => token.kind().0 == u32::MAX - 1,
            NodeOrToken::Node(_) => false,
        })
        .count();
    assert_eq!(dedents, 2);
    assert_eq!(extract_text::<TestSyntax>(&root, cache.interner()), "ax");
}

#[test]
fn node_boundaries_are_transparent() {
    let mut builder: Builder<TestSyntax> = Builder::new();
    builder.start_node(TestSyntax::Root);
    builder.token(TestSyntax::Text, "a");
    builder.newline();
    builder.start_node(TestSyntax::Root);
    builder.indent("  ");
    builder.token(TestSyntax::Text, "b");
    builder.newline();
    builder.finish_node();
    builder.token(TestSyntax::Text, "c");
    builder.newline();
    builder.start_node(TestSyntax::Root);
    builder.start_node(TestSyntax::Root);
    builder.dedent();
    builder.finish_node();
    builder.token(TestSyntax::Text, "d");
    builder.finish_node();
    builder.finish_node();
    let (root, cache) = builder.finish();
    let cache = cache.expect("No cache");
    assert_eq!(
        extract_text::<TestSyntax>(&root, cache.interner()),
        "a\n  b\n  c\nd"
    );
}

#[test]
fn empty_root_reconstructs_to_nothing() {
    let mut builder: Builder<TestSyntax> = Builder::new();
    builder.start_node(TestSyntax::Root);
    builder.finish_node();
    let (root, cache) = builder.finish();
    let cache = cache.expect("No cache");
    assert_eq!(extract_text::<TestSyntax>(&root, cache.interner()), "");
    assert_eq!(
        try_extract_text::<TestSyntax>(&root, cache.interner()),
        Some(String::new())
    );
}

#[test]
fn reconstruction_can_be_repeated() {
    let mut builder: Builder<TestSyntax> = Builder::new();
    builder.start_node(TestSyntax::Root);
    builder.indent("# ");
    builder.token(TestSyntax::Text, "note");
    builder.newline();
    builder.dedent();
    builder.finish_node();
    let (root, cache) = builder.finish();
    let cache = cache.expect("No cache");
    let first = extract_text::<TestSyntax>(&root, cache.interner());
    let second = extract_text::<TestSyntax>(&root, cache.interner());
    assert_eq!(first, "# note\n");
    assert_eq!(first, second);
    assert_eq!(
        extract_text_to_string::<TestSyntax>(&root, cache.interner()),
        "# note\n"
    );
    assert_eq!(
        try_extract_text::<TestSyntax>(&root, cache.interner()),
        Some(String::from("# note\n"))
    );
}

#[test]
fn dedent_without_indent_is_rejected() {
    let mut builder: Builder<TestSyntax> = Builder::new();
    builder.start_node(TestSyntax::Root);
    builder.token(TestSyntax::Text, "a");
    builder.dedent();
    builder.token(TestSyntax::Text, "b");
    builder.finish_node();
    let (root, cache) = builder.finish();
    let cache = cache.expect("No cache");
    assert_eq!(try_extract_text::<TestSyntax>(&root, cache.interner()), None);
}

#[test]
fn dedent_before_its_indent_is_rejected() {
    let mut builder: Builder<TestSyntax> = Builder::new();
    builder.start_node(TestSyntax::Root);
    builder.start_node(TestSyntax::Root);
    builder.dedent();
    builder.finish_node();
    builder.indent("  ");
    builder.token(TestSyntax::Text, "b");
    builder.finish_node();
    let (root, cache) = builder.finish();
    let cache = cache.expect("No cache");
    assert_eq!(try_extract_text::<TestSyntax>(&root, cache.interner()), None);
}

#[test]
fn kind_outside_the_domain_is_rejected_in_a_tree() {
    let mut builder: Builder<Wide> = Builder::new();
    builder.start_node(Wide::Low);
    builder.token(Wide::High, "x");
    builder.finish_node();
    let (root, cache) = builder.finish();
    let cache = cache.expect("No cache");
    assert_eq!(try_extract_text::<TestSyntax>(&root, cache.interner()), None);
    assert_eq!(
        try_extract_text::<Wide>(&root, cache.interner()),
        Some(String::from("x"))
    );
}

#[test]
fn absent_text_counts_as_empty() {
    let mut builder: GreenNodeBuilder<'static, 'static, Fixed> = GreenNodeBuilder::new();
    builder.start_node(Fixed::Root);
    builder.token(Fixed::Root, "a");
    builder.static_token(Fixed::Arrow);
    builder.token(Fixed::Root, "b");
    builder.finish_node();
    let (root, cache) = builder.finish();
    let cache = cache.expect("No cache");
    assert_eq!(extract_text::<TestSyntax>(&root, cache.interner()), "ab");
}

#[test]
fn raw_kind_is_its_own_code() {
    assert_eq!(RawKind::from_raw(RawSyntaxKind(7)), RawKind(7));
    assert_eq!(RawKind(u32::MAX).into_raw(), RawSyntaxKind(u32::MAX));
    assert_eq!(RawKind(3).static_text(), None);
}

#[test]
fn node_that_covers_too_much_text_cannot_be_finished() {
    let chunk = "a".repeat(1 << 20);
    let mut builder: Builder<TestSyntax> = Builder::new();
    builder.start_node(TestSyntax::Root);
    for _ in 0..4095 {
        builder.token(TestSyntax::Text, &chunk);
    }
    assert!(builder.can_finish_node());
    builder.token(TestSyntax::Text, "0123456789abcde");
    assert!(builder.can_finish_node());
    builder.token(TestSyntax::Text, &chunk);
    assert!(!builder.can_finish_node());
    assert!(!builder.try_finish_node());
    assert_eq!(builder.depth(), 1);
    assert!(!builder.is_complete());
}

#[test]
fn node_of_the_greatest_length_can_be_finished() {
    let chunk = "a".repeat(1 << 20);
    let mut builder: Builder<TestSyntax> = Builder::new();
    builder.start_node(TestSyntax::Root);
    for _ in 0..4095 {
        builder.token(TestSyntax::Text, &chunk);
    }
    builder.token(TestSyntax::Text, &chunk[1..]);
    assert!(builder.can_finish_node());
    assert!(builder.try_finish_node());
    assert!(builder.is_complete());
    let (root, _cache) = builder.finish();
    assert_eq!(u32::from(root.text_len()), u32::MAX);
}

#[test]
fn lengths_add_up_through_finished_nodes() {
    let chunk = "a".repeat(1 << 20);
    let mut builder: Builder<TestSyntax> = Builder::new();
    builder.start_node(TestSyntax::Root);
    for _ in 0..2 {
        builder.start_node(TestSyntax::Root);
        for _ in 0..2048 {
            builder.token(TestSyntax::Text, &chunk);
        }
        assert!(builder.can_finish_node());
        builder.finish_node();
    }
    assert!(!builder.can_finish_node());
    assert!(!builder.try_finish_node());
}

#[test]
fn nothing_started_cannot_be_finished() {
    let mut builder: Builder<TestSyntax> = Builder::new();
    assert!(!builder.can_finish_node());
    builder.token(TestSyntax::Text, "x");
    assert!(!builder.can_finish_node());
    builder.start_node(TestSyntax::Root);
    assert!(builder.can_finish_node());
}

#[test]
fn finished_tree_has_the_kind_and_length_of_its_root() {
    let mut builder: Builder<Wide> = Builder::new();
    builder.start_node(Wide::High);
    builder.token(Wide::Low, "héllo");
    builder.newline();
    builder.finish_node();
    let (root, cache) = builder.finish();
    assert_eq!(root.kind(), RawSyntaxKind(40));
    assert_eq!(u32::from(root.text_len()), 7);
    let cache = cache.expect("No cache");
    assert_eq!(
        extract_text::<Wide>(&root, cache.interner()),
        "héllo\n"
    );
}

#[test]
fn text_of_what_was_built_comes_back_with_the_cache() {
    let mut builder: Builder<TestSyntax> = Builder::new();
    builder.start_node(TestSyntax::Root);
    builder.token(TestSyntax::Text, "a");
    builder.newline();
    builder.indent("  ");
    builder.start_node(TestSyntax::Root);
    builder.token(TestSyntax::Text, "b");
    builder.token(TestSyntax::Text, "c");
    builder.newline();
    builder.token(TestSyntax::Text, "d");
    builder.dedent();
    builder.finish_node();
    builder.newline();
    builder.token(TestSyntax::Text, "e");
    builder.finish_node();
    let (root, cache) = builder.finish();
    let cache = cache.expect("No cache");
    assert_eq!(
        try_extract_text_with::<TestSyntax>(&root, &cache),
        Some(String::from("a\n  bc\n  d\ne"))
    );
    assert_eq!(
        try_extract_text_with::<TestSyntax>(&root, &cache),
        try_extract_text::<TestSyntax>(&root, cache.interner())
    );
}

#[test]
fn unbalanced_tree_is_rejected_with_the_cache_too() {
    let mut builder: Builder<TestSyntax> = Builder::new();
    builder.start_node(TestSyntax::Root);
    builder.indent("  ");
    builder.dedent();
    builder.dedent();
    builder.token(TestSyntax::Text, "x");
    builder.finish_node();
    let (root, cache) = builder.finish();
    let cache = cache.expect("No cache");
    assert_eq!(try_extract_text_with::<TestSyntax>(&root, &cache), None);
}
