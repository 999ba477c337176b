//! The line-wise indentation decision and its round trip.
//!
//! A text is taken line by line. Each line keeps as many of the open
//! indentation fragments as it starts with, closes the others, opens a new
//! fragment for a further run of blanks and `#`, and gives the remainder as
//! one ordinary token. The leaves so decided reconstruct to the text.

use vstd::prelude::*;
use crate::syntax::{Syntax2D, TokenKind, DEDENT_RAW, INDENT_RAW, NEWLINE_RAW};
use crate::text::{initial, joined, reconstruct, run, run_concat, run_one, Leaf, TextStateView};

verus! {

/// The characters that indentation is made of.
pub open spec fn is_indent_char(c: char) -> bool {
    c == ' ' || c == '#'
}

/// True where a text holds nothing but indentation characters.
pub open spec fn only_indentation(text: Seq<char>) -> bool {
    forall|i: int| 0 <= i < text.len() ==> is_indent_char(#[trigger] text[i])
}

/// The end of the run of indentation characters that starts at `from`.
pub open spec fn indent_end(text: Seq<char>, from: nat) -> nat
    decreases text.len() - from,
{
    if from < text.len() && is_indent_char(text[from as int]) {
        indent_end(text, from + 1)
    } else {
        from
    }
}

/// The number of open fragments that a line keeps, counted on from `from`:
/// the fragments are matched one after the other at the start of the line,
/// up to the first that does not match.
pub open spec fn kept_from(stack: Seq<Seq<char>>, line: Seq<char>, from: nat) -> nat
    decreases stack.len() - from,
{
    if from < stack.len() && joined(stack.take(from as int + 1)).is_prefix_of(line) {
        kept_from(stack, line, from + 1)
    } else {
        from
    }
}

/// The number of open fragments that a line keeps.
pub open spec fn kept(stack: Seq<Seq<char>>, line: Seq<char>) -> nat {
    kept_from(stack, line, 0)
}

/// What is left of a line after the fragments it keeps.
pub open spec fn after_kept(stack: Seq<Seq<char>>, line: Seq<char>) -> Seq<char> {
    line.skip(joined(stack.take(kept(stack, line) as int)).len() as int)
}

/// The fragment that a line opens: empty where it opens none.
pub open spec fn opened(stack: Seq<Seq<char>>, line: Seq<char>) -> Seq<char> {
    let rest = after_kept(stack, line);
    rest.take(indent_end(rest, 0) as int)
}

/// The content of a line, after all its indentation.
pub open spec fn content(stack: Seq<Seq<char>>, line: Seq<char>) -> Seq<char> {
    let rest = after_kept(stack, line);
    rest.skip(indent_end(rest, 0) as int)
}

/// The open fragments after a line.
pub open spec fn next_stack(stack: Seq<Seq<char>>, line: Seq<char>) -> Seq<Seq<char>> {
    let held = stack.take(kept(stack, line) as int);
    if opened(stack, line).len() > 0 {
        held.push(opened(stack, line))
    } else {
        held
    }
}

/// A run of dedent leaves.
pub open spec fn dedent_leaves(count: nat) -> Seq<Leaf> {
    Seq::new(count, |i: int| Leaf { kind: DEDENT_RAW, text: Seq::empty() })
}

/// The leaves decided for one line: a dedent for each fragment that is not
/// kept, an indent where a fragment is opened, the content as one token of
/// kind `kind` unless it is empty, and a newline.
pub open spec fn line_leaves(stack: Seq<Seq<char>>, line: Seq<char>, kind: u32) -> Seq<Leaf> {
    dedent_leaves((stack.len() - kept(stack, line)) as nat) + (if opened(stack, line).len() > 0 {
        seq![Leaf { kind: INDENT_RAW, text: opened(stack, line) }]
    } else {
        Seq::empty()
    }) + (if content(stack, line).len() > 0 {
        seq![Leaf { kind, text: content(stack, line) }]
    } else {
        Seq::empty()
    }) + seq![Leaf { kind: NEWLINE_RAW, text: seq!['\n'] }]
}

/// The open fragments after a sequence of lines.
pub open spec fn stack_after(lines: Seq<Seq<char>>) -> Seq<Seq<char>>
    decreases lines.len(),
{
    if lines.len() == 0 {
        Seq::empty()
    } else {
        next_stack(stack_after(lines.drop_last()), lines.last())
    }
}

/// The leaves decided for a sequence of lines.
pub open spec fn lines_leaves(lines: Seq<Seq<char>>, kind: u32) -> Seq<Leaf>
    decreases lines.len(),
{
    if lines.len() == 0 {
        Seq::empty()
    } else {
        lines_leaves(lines.drop_last(), kind) + line_leaves(
            stack_after(lines.drop_last()),
            lines.last(),
            kind,
        )
    }
}

/// The leaves decided for a whole text: those of its lines, then a dedent
/// for each fragment that is still open.
pub open spec fn text_leaves(lines: Seq<Seq<char>>, kind: u32) -> Seq<Leaf> {
    lines_leaves(lines, kind) + dedent_leaves(stack_after(lines).len())
}

/// The text that the lines are the lines of: each followed by a newline.
pub open spec fn source(lines: Seq<Seq<char>>) -> Seq<char>
    decreases lines.len(),
{
    if lines.len() == 0 {
        Seq::empty()
    } else {
        source(lines.drop_last()) + lines.last() + seq!['\n']
    }
}

/// A line that the round trip holds for: empty, or with something in it
/// besides indentation characters.
pub open spec fn has_content(line: Seq<char>) -> bool {
    line.len() == 0 || !only_indentation(line)
}

/// The run of indentation characters ends within the text and holds only
/// indentation characters.
proof fn indent_end_bounds(text: Seq<char>, from: nat)
    requires
        from <= text.len(),
    ensures
        from <= indent_end(text, from) <= text.len(),
        forall|i: int| from <= i < indent_end(text, from) ==> is_indent_char(#[trigger] text[i]),
    decreases text.len() - from,
{
    if from < text.len() && is_indent_char(text[from as int]) {
        indent_end_bounds(text, from + 1);
    }
}

/// The fragments that a line keeps stand at its start.
proof fn kept_is_prefix(stack: Seq<Seq<char>>, line: Seq<char>, from: nat)
    requires
        from <= stack.len(),
        joined(stack.take(from as int)).is_prefix_of(line),
    ensures
        from <= kept_from(stack, line, from) <= stack.len(),
        joined(stack.take(kept_from(stack, line, from) as int)).is_prefix_of(line),
    decreases stack.len() - from,
{
    if from < stack.len() && joined(stack.take(from as int + 1)).is_prefix_of(line) {
        kept_is_prefix(stack, line, from + 1);
    }
}

/// Fragments of indentation characters join to indentation characters.
proof fn joined_only_indentation(stack: Seq<Seq<char>>)
    requires
        forall|i: int| 0 <= i < stack.len() ==> only_indentation(#[trigger] stack[i]),
    ensures
        only_indentation(joined(stack)),
    decreases stack.len(),
{
    if stack.len() > 0 {
        let front = stack.drop_last();
        assert forall|i: int| 0 <= i < front.len() implies only_indentation(
            #[trigger] front[i],
        ) by {
            assert(front[i] == stack[i]);
        }
        joined_only_indentation(front);
        assert(only_indentation(stack[stack.len() - 1]));
    }
}

/// A run of dedents closes as many fragments and changes nothing else.
proof fn dedents_run<S: TokenKind>(state: TextStateView, count: nat)
    requires
        count <= state.stack.len(),
    ensures
        run::<S>(Some(state), dedent_leaves(count)) == Some(
            TextStateView {
                output: state.output,
                stack: state.stack.take(state.stack.len() - count),
                pending: state.pending,
            },
        ),
    decreases count,
{
    if count == 0 {
        assert(state.stack.take(state.stack.len() - 0) =~= state.stack);
    } else {
        let before = (count - 1) as nat;
        dedents_run::<S>(state, before);
        assert(dedent_leaves(count).drop_last() =~= dedent_leaves(before));
        assert(dedent_leaves(count).last() == Leaf { kind: DEDENT_RAW, text: Seq::empty() });
        let mid = state.stack.take(state.stack.len() - before);
        assert(mid.drop_last() =~= state.stack.take(state.stack.len() - count));
    }
}

/// The leaves decided for one line write the line and its newline, and
/// leave the fragments open that the decision holds open.
proof fn line_runs<S: TokenKind>(state: TextStateView, line: Seq<char>, kind: S)
    requires
        state.pending == (state.stack.len() > 0),
        forall|i: int| 0 <= i < state.stack.len() ==> only_indentation(#[trigger] state.stack[i]),
        has_content(line),
    ensures
        run::<S>(Some(state), line_leaves(state.stack, line, kind.encoding())) == Some(
            TextStateView {
                output: state.output + line + seq!['\n'],
                stack: next_stack(state.stack, line),
                pending: next_stack(state.stack, line).len() > 0,
            },
        ),
        forall|i: int|
            0 <= i < next_stack(state.stack, line).len() ==> only_indentation(
                #[trigger] next_stack(state.stack, line)[i],
            ),
{
    let stack = state.stack;
    let k = kept(stack, line);
    assert(stack.take(0) =~= Seq::<Seq<char>>::empty());
    kept_is_prefix(stack, line, 0);
    let held = stack.take(k as int);
    let lead = joined(held);
    let rest = after_kept(stack, line);
    assert(line =~= lead + rest);
    indent_end_bounds(rest, 0);
    let fresh = opened(stack, line);
    let body = content(stack, line);
    assert(rest =~= fresh + body);
    assert(only_indentation(fresh));
    assert forall|i: int| 0 <= i < held.len() implies only_indentation(#[trigger] held[i]) by {
        assert(held[i] == stack[i]);
    }
    joined_only_indentation(held);

    // The dedents.
    let closing = dedent_leaves((stack.len() - k) as nat);
    dedents_run::<S>(state, (stack.len() - k) as nat);
    let s1 = TextStateView { output: state.output, stack: held, pending: state.pending };
    assert(run::<S>(Some(state), closing) == Some(s1));

    // The indent.
    let opening = if fresh.len() > 0 {
        seq![Leaf { kind: INDENT_RAW, text: fresh }]
    } else {
        Seq::empty()
    };
    let s2 = if fresh.len() > 0 {
        TextStateView { output: state.output, stack: held.push(fresh), pending: true }
    } else {
        s1
    };
    if fresh.len() > 0 {
        run_one::<S>(s1, Leaf { kind: INDENT_RAW, text: fresh });
        assert(held.push(fresh).drop_last() =~= held);
    }
    assert(run::<S>(Some(s1), opening) == Some(s2));
    assert(s2.stack == next_stack(stack, line));
    assert(joined(s2.stack) =~= lead + fresh);
    assert(s2.pending || s2.stack.len() == 0);

    // The content.
    let raw = kind.encoding();
    kind.encoding_round_trip();
    let wording = if body.len() > 0 {
        seq![Leaf { kind: raw, text: body }]
    } else {
        Seq::empty()
    };
    let s3 = TextStateView {
        output: state.output + line,
        stack: s2.stack,
        pending: if body.len() > 0 {
            false
        } else {
            s2.pending
        },
    };
    if body.len() > 0 {
        run_one::<S>(s2, Leaf { kind: raw, text: body });
        assert(Syntax2D::<S>::decode(raw) is Token);
        assert(line =~= joined(s2.stack) + body);
        if s2.pending {
            assert(s2.output + joined(s2.stack) + body =~= state.output + line);
        } else {
            assert(joined(s2.stack) =~= Seq::<char>::empty());
            assert(s2.output + body =~= state.output + line);
        }
    } else {
        assert(line =~= lead + fresh);
        assert(only_indentation(line)) by {
            assert forall|i: int| 0 <= i < line.len() implies is_indent_char(
                #[trigger] line[i],
            ) by {
                if i < lead.len() {
                    assert(line[i] == lead[i]);
                } else {
                    assert(line[i] == fresh[i - lead.len()]);
                }
            }
        }
        assert(line.len() == 0);
        assert(state.output + line =~= state.output);
        assert(fresh.len() == 0);
    }
    assert(run::<S>(Some(s2), wording) == Some(s3));

    // The newline.
    let ending = seq![Leaf { kind: NEWLINE_RAW, text: seq!['\n'] }];
    run_one::<S>(s3, Leaf { kind: NEWLINE_RAW, text: seq!['\n'] });
    let s4 = TextStateView {
        output: state.output + line + seq!['\n'],
        stack: s3.stack,
        pending: s3.stack.len() > 0,
    };
    assert(s3.output.push('\n') =~= state.output + line + seq!['\n']);
    assert(run::<S>(Some(s3), ending) == Some(s4));

    run_concat::<S>(Some(state), closing, opening);
    run_concat::<S>(Some(state), closing + opening, wording);
    run_concat::<S>(Some(state), closing + opening + wording, ending);
    assert(line_leaves(stack, line, raw) == closing + opening + wording + ending);

    assert forall|i: int| 0 <= i < s4.stack.len() implies only_indentation(
        #[trigger] s4.stack[i],
    ) by {
        if i < held.len() {
            assert(s4.stack[i] == held[i]);
        }
    }
}

/// The leaves decided for a sequence of lines write the lines, each with
/// its newline, and leave the fragments open that the decision holds open.
proof fn lines_run<S: TokenKind>(lines: Seq<Seq<char>>, kind: S)
    requires
        forall|i: int| 0 <= i < lines.len() ==> has_content(#[trigger] lines[i]),
    ensures
        run::<S>(Some(initial()), lines_leaves(lines, kind.encoding())) == Some(
            TextStateView {
                output: source(lines),
                stack: stack_after(lines),
                pending: stack_after(lines).len() > 0,
            },
        ),
        forall|i: int|
            0 <= i < stack_after(lines).len() ==> only_indentation(#[trigger] stack_after(lines)[i]),
    decreases lines.len(),
{
    if lines.len() > 0 {
        let front = lines.drop_last();
        assert forall|i: int| 0 <= i < front.len() implies has_content(#[trigger] front[i]) by {
            assert(front[i] == lines[i]);
        }
        lines_run::<S>(front, kind);
        let state = TextStateView {
            output: source(front),
            stack: stack_after(front),
            pending: stack_after(front).len() > 0,
        };
        assert(has_content(lines[lines.len() - 1]));
        line_runs::<S>(state, lines.last(), kind);
        run_concat::<S>(
            Some(initial()),
            lines_leaves(front, kind.encoding()),
            line_leaves(stack_after(front), lines.last(), kind.encoding()),
        );
    }
}

/// Round trip: the leaves that the line-wise decision gives for a text
/// reconstruct to that text, indentation and final newline included. It
/// holds of every text whose lines are empty or hold something besides
/// indentation characters; the content of every line becomes a token of the
/// one kind `kind`.
pub proof fn round_trip<S: TokenKind>(lines: Seq<Seq<char>>, kind: S)
    requires
        forall|i: int| 0 <= i < lines.len() ==> has_content(#[trigger] lines[i]),
    ensures
        reconstruct::<S>(text_leaves(lines, kind.encoding())) == Some(source(lines)),
{
    lines_run::<S>(lines, kind);
    let state = TextStateView {
        output: source(lines),
        stack: stack_after(lines),
        pending: stack_after(lines).len() > 0,
    };
    dedents_run::<S>(state, stack_after(lines).len());
    run_concat::<S>(
        Some(initial()),
        lines_leaves(lines, kind.encoding()),
        dedent_leaves(stack_after(lines).len()),
    );
}

} // verus!
