use cstree2d::green::{extract_text, Builder};
use cstree2d::syntax::TokenKind;

#[derive(Debug, Clone, Copy, PartialEq, Eq)]
enum TestSyntax {
    Root,
    Text,
}

impl TokenKind for TestSyntax {
    fn encoding(self) -> u32 {
        self.into_raw()
    }

    fn decoding(raw: u32) -> Self {
        Self::from_raw(raw)
    }

    fn in_domain(raw: u32) -> bool {
        Self::accepts(raw)
    }

    fn fixed_text(self) -> Option<&'static str> {
        self.static_text()
    }

    fn encoding_round_trip(self) {}

    fn decoding_round_trip(_raw: u32) {}

    fn accepts(raw: u32) -> bool {
        raw <= 1
    }

    fn from_raw(raw: u32) -> Self {
        match raw {
            0 => TestSyntax::Root,
            1 => TestSyntax::Text,
            _ => panic!("Invalid raw syntax kind: {}", raw),
        }
    }

    fn into_raw(self) -> u32 {
        match self {
            TestSyntax::Root => 0,
            TestSyntax::Text => 1,
        }
    }

    fn static_text(self) -> Option<&'static str> {
        None
    }
}

/// Decides the indentation of a text line by line and hands it to a builder.
fn parse(builder: &mut Builder<TestSyntax>, s: &str) {
    builder.start_node(TestSyntax::Root);

    let mut indents: Vec<&str> = vec![];
    for mut line in s.lines() {
        let mut kept = 0;
        for indent in &indents {
            if let Some(rest) = line.strip_prefix(indent) {
                line = rest;
                kept += 1;
            } else {
                break;
            }
        }

        builder.dedents(indents.len() - kept);
        indents.truncate(kept);

        let new_indent_len = line.chars().take_while(|c| *c == ' ' || *c == '#').count();
        if new_indent_len > 0 {
            let (indent, rest) = line.split_at(new_indent_len);
            builder.indent(indent);
            indents.push(indent);
            line = rest;
        }

        if line.len() > 0 {
            builder.token(TestSyntax::Text, line);
        }
        builder.newline();
    }

    for _ in 0..indents.len() {
        builder.dedent();
    }

    builder.finish_node();
}

fn round_trip(s: &str) -> String {
    let mut builder: Builder<TestSyntax> = Builder::new();
    parse(&mut builder, s);
    let (root, cache) = builder.finish();
    let cache = cache.expect("No cache");
    extract_text::<TestSyntax>(&root, cache.interner())
}

#[test]
fn python_like_text_round_trips() {
    let s = "# A simple example\ndef hello_world():\n    print('Hello')\n    print('World')\nhello_world()\n";
    assert_eq!(round_trip(s), s);
}

#[test]
fn nested_blocks_round_trip() {
    let s = "a:\n  b:\n    c\n    d\n  e\nf\n";
    assert_eq!(round_trip(s), s);
}

#[test]
fn comment_inside_a_block_round_trips() {
    let s = "def f():\n    # one\n    # two\n    x = 1\n";
    assert_eq!(round_trip(s), s);
}

#[test]
fn blank_lines_round_trip() {
    let s = "a\n\n  b\n\n  c\n\nd\n";
    assert_eq!(round_trip(s), s);
}

#[test]
fn text_ending_inside_a_block_round_trips() {
    let s = "a\n  b\n    c\n";
    assert_eq!(round_trip(s), s);
}

#[test]
fn empty_text_round_trips() {
    assert_eq!(round_trip(""), "");
}

#[test]
fn flat_text_round_trips() {
    let s = "one\ntwo\nthree\n";
    assert_eq!(round_trip(s), s);
}

#[test]
fn line_of_indentation_alone_loses_its_indentation() {
    assert_eq!(round_trip("a\n  \nb\n"), "a\n\nb\n");
    assert_eq!(round_trip("#\n"), "\n");
}
