//! Text reconstruction as a state machine over the leaves of a tree.
//!
//! The leaves are taken in document order. An indentation stack and a
//! pending flag are threaded through them; node boundaries play no part.

use vstd::prelude::*;
use vstd::string::StringExecFns;
use crate::syntax::{Syntax2D, TokenKind, DEDENT_RAW, INDENT_RAW, NEWLINE_RAW};

verus! {

/// A leaf as reconstruction sees it: its raw kind and its text.
pub struct Leaf {
    pub kind: u32,
    pub text: Seq<char>,
}

/// The mathematical state of a reconstruction.
pub struct TextStateView {
    /// The text written so far.
    pub output: Seq<char>,
    /// The indentation fragments that are open, in the order of their push.
    pub stack: Seq<Seq<char>>,
    /// Whether the next ordinary token is preceded by the indentation.
    pub pending: bool,
}

/// The state of a reconstruction: the text so far, the indentation stack and
/// the pending flag.
pub struct TextState {
    output: String,
    stack: Vec<String>,
    pending: bool,
}

/// The fragments of a stack, one after the other, in the order of their push.
pub open spec fn joined(stack: Seq<Seq<char>>) -> Seq<char>
    decreases stack.len(),
{
    if stack.len() == 0 {
        Seq::empty()
    } else {
        joined(stack.drop_last()) + stack.last()
    }
}

/// The state before the first leaf: nothing written, nothing open.
pub open spec fn initial() -> TextStateView {
    TextStateView { output: Seq::empty(), stack: Seq::empty(), pending: false }
}

/// The state after one leaf, or `None` where the leaf cannot be taken: its
/// kind does not decode, or it is a dedent with no indent open.
pub open spec fn step<S: TokenKind>(state: TextStateView, leaf: Leaf) -> Option<TextStateView> {
    if !Syntax2D::<S>::decodable(leaf.kind) {
        None
    } else {
        match Syntax2D::<S>::decode(leaf.kind) {
            Syntax2D::Indent => Some(
                TextStateView {
                    output: state.output,
                    stack: state.stack.push(leaf.text),
                    pending: true,
                },
            ),
            Syntax2D::Dedent => if state.stack.len() == 0 {
                None
            } else {
                Some(
                    TextStateView {
                        output: state.output,
                        stack: state.stack.drop_last(),
                        pending: state.pending,
                    },
                )
            },
            Syntax2D::Newline => Some(
                TextStateView {
                    output: state.output.push('\n'),
                    stack: state.stack,
                    pending: state.stack.len() > 0,
                },
            ),
            Syntax2D::Token(_) => Some(
                TextStateView {
                    output: if state.pending {
                        state.output + joined(state.stack) + leaf.text
                    } else {
                        state.output + leaf.text
                    },
                    stack: state.stack,
                    pending: false,
                },
            ),
        }
    }
}

/// The state after a sequence of leaves, taken from the left; `None` once a
/// leaf could not be taken.
pub open spec fn run<S: TokenKind>(state: Option<TextStateView>, leaves: Seq<Leaf>) -> Option<
    TextStateView,
>
    decreases leaves.len(),
{
    if leaves.len() == 0 {
        state
    } else {
        match run::<S>(state, leaves.drop_last()) {
            Some(before) => step::<S>(before, leaves.last()),
            None => None,
        }
    }
}

/// The text that a sequence of leaves stands for, where it stands for one.
pub open spec fn reconstruct<S: TokenKind>(leaves: Seq<Leaf>) -> Option<Seq<char>> {
    match run::<S>(Some(initial()), leaves) {
        Some(state) => Some(state.output),
        None => None,
    }
}

/// Nothing is taken after a failure.
pub proof fn run_stays_failed<S: TokenKind>(leaves: Seq<Leaf>)
    ensures
        run::<S>(None, leaves) is None,
    decreases leaves.len(),
{
    if leaves.len() > 0 {
        run_stays_failed::<S>(leaves.drop_last());
    }
}

/// Taking two sequences one after the other is taking their concatenation.
pub proof fn run_concat<S: TokenKind>(state: Option<TextStateView>, a: Seq<Leaf>, b: Seq<Leaf>)
    ensures
        run::<S>(state, a + b) == run::<S>(run::<S>(state, a), b),
    decreases b.len(),
{
    if b.len() == 0 {
        assert(a + b =~= a);
    } else {
        assert((a + b).drop_last() =~= a + b.drop_last());
        assert((a + b).last() == b.last());
        run_concat::<S>(state, a, b.drop_last());
    }
}

/// Taking one leaf is one step.
pub proof fn run_one<S: TokenKind>(state: TextStateView, leaf: Leaf)
    ensures
        run::<S>(Some(state), seq![leaf]) == step::<S>(state, leaf),
{
    let one = seq![leaf];
    assert(one.drop_last() =~= Seq::<Leaf>::empty());
    assert(run::<S>(Some(state), one.drop_last()) == Some(state));
}

/// The number of indent leaves in a sequence.
pub open spec fn indents(leaves: Seq<Leaf>) -> nat
    decreases leaves.len(),
{
    if leaves.len() == 0 {
        0
    } else if leaves.last().kind == INDENT_RAW {
        indents(leaves.drop_last()) + 1
    } else {
        indents(leaves.drop_last())
    }
}

/// The number of dedent leaves in a sequence.
pub open spec fn dedents(leaves: Seq<Leaf>) -> nat
    decreases leaves.len(),
{
    if leaves.len() == 0 {
        0
    } else if leaves.last().kind == DEDENT_RAW {
        dedents(leaves.drop_last()) + 1
    } else {
        dedents(leaves.drop_last())
    }
}

/// No prefix of the sequence holds more dedents than indents.
pub open spec fn balanced(leaves: Seq<Leaf>) -> bool {
    forall|k: int|
        0 <= k <= leaves.len() ==> dedents(#[trigger] leaves.take(k)) <= indents(leaves.take(k))
}

/// Every leaf of the sequence has a kind that decodes.
pub open spec fn all_decodable<S: TokenKind>(leaves: Seq<Leaf>) -> bool {
    forall|i: int| 0 <= i < leaves.len() ==> Syntax2D::<S>::decodable((#[trigger] leaves[i]).kind)
}

/// A sequence of leaves stands for a text exactly when every kind decodes
/// and no dedent comes without an open indent before it. The depth of the
/// stack is then the number of indents less the number of dedents.
pub proof fn defined_iff_balanced<S: TokenKind>(leaves: Seq<Leaf>)
    ensures
        run::<S>(Some(initial()), leaves) is Some <==> all_decodable::<S>(leaves) && balanced(
            leaves,
        ),
        reconstruct::<S>(leaves) is Some <==> all_decodable::<S>(leaves) && balanced(leaves),
        run::<S>(Some(initial()), leaves) matches Some(state) ==> state.stack.len() + dedents(
            leaves,
        ) == indents(leaves),
    decreases leaves.len(),
{
    if leaves.len() == 0 {
        assert forall|k: int| 0 <= k <= leaves.len() implies dedents(#[trigger] leaves.take(k))
            <= indents(leaves.take(k)) by {
            assert(leaves.take(k) =~= leaves);
        }
    } else {
        let front = leaves.drop_last();
        let last = leaves.last();
        let whole = leaves.len() as int;
        defined_iff_balanced::<S>(front);
        assert(leaves.take(whole) =~= leaves);
        assert(front.take(whole - 1) =~= front);
        if all_decodable::<S>(leaves) {
            assert(leaves[whole - 1] == last);
            assert forall|i: int| 0 <= i < front.len() implies Syntax2D::<S>::decodable(
                (#[trigger] front[i]).kind,
            ) by {
                assert(front[i] == leaves[i]);
            }
        }
        if all_decodable::<S>(front) && Syntax2D::<S>::decodable(last.kind) {
            assert forall|i: int| 0 <= i < leaves.len() implies Syntax2D::<S>::decodable(
                (#[trigger] leaves[i]).kind,
            ) by {
                if i < front.len() {
                    assert(leaves[i] == front[i]);
                }
            }
        }
        if balanced(leaves) {
            assert forall|k: int| 0 <= k <= front.len() implies dedents(#[trigger] front.take(k))
                <= indents(front.take(k)) by {
                assert(front.take(k) =~= leaves.take(k));
            }
            assert(dedents(leaves.take(whole)) <= indents(leaves.take(whole)));
        }
        if balanced(front) && dedents(leaves) <= indents(leaves) {
            assert forall|k: int| 0 <= k <= leaves.len() implies dedents(
                #[trigger] leaves.take(k),
            ) <= indents(leaves.take(k)) by {
                if k < whole {
                    assert(leaves.take(k) =~= front.take(k));
                }
            }
        }
        if balanced(front) {
            assert(dedents(front.take(whole - 1)) <= indents(front.take(whole - 1)));
        }
    }
}

/// A dedent that is reached with no indent open makes the whole sequence
/// stand for no text: where the leaves before the `at`-th hold no more
/// indents than dedents and that leaf is a dedent, reconstruction is not
/// defined, whatever follows.
pub proof fn dedent_with_nothing_open_is_rejected<S: TokenKind>(leaves: Seq<Leaf>, at: int)
    requires
        0 <= at < leaves.len(),
        leaves[at].kind == DEDENT_RAW,
        indents(leaves.take(at)) <= dedents(leaves.take(at)),
    ensures
        reconstruct::<S>(leaves) is None,
        run::<S>(Some(initial()), leaves) is None,
{
    defined_iff_balanced::<S>(leaves);
    let upto = leaves.take(at + 1);
    assert(upto.drop_last() =~= leaves.take(at));
    assert(upto.last() == leaves[at]);
    assert(dedents(upto) == dedents(leaves.take(at)) + 1);
    assert(indents(upto) == indents(leaves.take(at)));
    assert(!balanced(leaves));
}

/// The number of newline characters in a text.
pub open spec fn newlines_in(text: Seq<char>) -> nat
    decreases text.len(),
{
    if text.len() == 0 {
        0
    } else if text.last() == '\n' {
        newlines_in(text.drop_last()) + 1
    } else {
        newlines_in(text.drop_last())
    }
}

/// The number of newline leaves in a sequence.
pub open spec fn newline_leaves(leaves: Seq<Leaf>) -> nat
    decreases leaves.len(),
{
    if leaves.len() == 0 {
        0
    } else if leaves.last().kind == NEWLINE_RAW {
        newline_leaves(leaves.drop_last()) + 1
    } else {
        newline_leaves(leaves.drop_last())
    }
}

/// No leaf but a newline leaf carries a newline character in its text.
pub open spec fn lines_are_whole(leaves: Seq<Leaf>) -> bool {
    forall|i: int|
        0 <= i < leaves.len() && (#[trigger] leaves[i]).kind != NEWLINE_RAW ==> newlines_in(
            leaves[i].text,
        ) == 0
}

/// The newline characters of two texts add up in their concatenation.
proof fn newlines_in_concat(a: Seq<char>, b: Seq<char>)
    ensures
        newlines_in(a + b) == newlines_in(a) + newlines_in(b),
    decreases b.len(),
{
    if b.len() == 0 {
        assert(a + b =~= a);
    } else {
        assert((a + b).drop_last() =~= a + b.drop_last());
        assert((a + b).last() == b.last());
        newlines_in_concat(a, b.drop_last());
    }
}

/// Fragments without a newline character join to a text without one.
proof fn newlines_in_joined(stack: Seq<Seq<char>>)
    requires
        forall|i: int| 0 <= i < stack.len() ==> newlines_in(#[trigger] stack[i]) == 0,
    ensures
        newlines_in(joined(stack)) == 0,
    decreases stack.len(),
{
    if stack.len() > 0 {
        let front = stack.drop_last();
        assert forall|i: int| 0 <= i < front.len() implies newlines_in(#[trigger] front[i])
            == 0 by {
            assert(front[i] == stack[i]);
        }
        newlines_in_joined(front);
        assert(newlines_in(stack[stack.len() - 1]) == 0);
        newlines_in_concat(joined(front), stack.last());
    }
}

/// The text has as many lines as the tree says: where no leaf but a newline
/// leaf carries a newline character, the reconstructed text holds one
/// newline character for each newline leaf, and no open fragment holds one.
pub proof fn one_newline_for_each_newline_leaf<S: TokenKind>(leaves: Seq<Leaf>)
    requires
        lines_are_whole(leaves),
        run::<S>(Some(initial()), leaves) is Some,
    ensures
        newlines_in(run::<S>(Some(initial()), leaves).unwrap().output) == newline_leaves(leaves),
        newlines_in(reconstruct::<S>(leaves).unwrap()) == newline_leaves(leaves),
        forall|i: int|
            0 <= i < run::<S>(Some(initial()), leaves).unwrap().stack.len() ==> newlines_in(
                #[trigger] run::<S>(Some(initial()), leaves).unwrap().stack[i],
            ) == 0,
    decreases leaves.len(),
{
    if leaves.len() > 0 {
        let front = leaves.drop_last();
        let last = leaves.last();
        assert(last == leaves[leaves.len() - 1]);
        assert forall|i: int|
            0 <= i < front.len() && (#[trigger] front[i]).kind != NEWLINE_RAW implies newlines_in(
            front[i].text,
        ) == 0 by {
            assert(front[i] == leaves[i]);
        }
        one_newline_for_each_newline_leaf::<S>(front);
        let before = run::<S>(Some(initial()), front).unwrap();
        let after = run::<S>(Some(initial()), leaves).unwrap();
        assert(Some(after) == step::<S>(before, last));
        match Syntax2D::<S>::decode(last.kind) {
            Syntax2D::Indent => {
                assert forall|i: int| 0 <= i < after.stack.len() implies newlines_in(
                    #[trigger] after.stack[i],
                ) == 0 by {
                    if i < before.stack.len() {
                        assert(after.stack[i] == before.stack[i]);
                    }
                }
            },
            Syntax2D::Dedent => {
                assert forall|i: int| 0 <= i < after.stack.len() implies newlines_in(
                    #[trigger] after.stack[i],
                ) == 0 by {
                    assert(after.stack[i] == before.stack[i]);
                }
            },
            Syntax2D::Newline => {
                assert(after.output.drop_last() =~= before.output);
            },
            Syntax2D::Token(_) => {
                newlines_in_joined(before.stack);
                newlines_in_concat(before.output, joined(before.stack));
                newlines_in_concat(before.output + joined(before.stack), last.text);
                newlines_in_concat(before.output, last.text);
            },
        }
    }
}

impl View for TextState {
    type V = TextStateView;

    closed spec fn view(&self) -> TextStateView {
        TextStateView {
            output: self.output@,
            stack: Seq::new(self.stack@.len(), |i: int| self.stack@[i]@),
            pending: self.pending,
        }
    }
}

impl TextState {
    /// The state before the first leaf.
    pub fn new() -> (state: Self)
        ensures
            state@ == initial(),
    {
        let state = TextState { output: String::new(), stack: Vec::new(), pending: false };
        assert(state@.stack =~= Seq::<Seq<char>>::empty());
        state
    }

    /// The number of indentation fragments that are open.
    pub fn depth(&self) -> (n: usize)
        ensures
            n == self@.stack.len(),
    {
        self.stack.len()
    }

    /// Whether the next ordinary token is preceded by the indentation.
    pub fn is_pending(&self) -> (pending: bool)
        ensures
            pending == self@.pending,
    {
        self.pending
    }

    /// The text written so far.
    pub fn text(&self) -> (text: &str)
        ensures
            text@ == self@.output,
    {
        self.output.as_str()
    }

    /// Ends the reconstruction and hands out the text.
    pub fn into_text(self) -> (text: String)
        ensures
            text@ == self@.output,
    {
        self.output
    }

    /// Writes the open indentation fragments, in the order of their push.
    fn write_indentation(&mut self)
        ensures
            final(self)@ == (TextStateView {
                output: old(self)@.output + joined(old(self)@.stack),
                stack: old(self)@.stack,
                pending: old(self)@.pending,
            }),
    {
        let ghost stack = self@.stack;
        let ghost before = self@.output;
        let mut i: usize = 0;
        assert(stack.take(0) =~= Seq::<Seq<char>>::empty());
        assert(before + joined(stack.take(0)) =~= before);
        while i < self.stack.len()
            invariant
                i <= self.stack.len(),
                self@.stack == stack,
                self.stack@.len() == stack.len(),
                self.pending == old(self).pending,
                self.output@ == before + joined(stack.take(i as int)),
            decreases self.stack.len() - i,
        {
            let ghost fragments = self.stack@;
            self.output.append(self.stack[i].as_str());
            proof {
                assert(self.stack@ == fragments);
                assert(stack[i as int] == fragments[i as int]@);
                assert(stack.take(i + 1).drop_last() =~= stack.take(i as int));
                assert(stack.take(i + 1).last() == stack[i as int]);
                assert(self.output@ =~= before + joined(stack.take(i + 1)));
            }
            i += 1;
        }
        assert(stack.take(i as int) =~= stack);
    }

    /// Takes one leaf: an indent pushes its text, a dedent pops, a newline
    /// ends the line, an ordinary token is written after the indentation
    /// that is pending. Where the leaf cannot be taken, the state is left as
    /// it was.
    pub fn apply<S: TokenKind>(&mut self, kind: u32, text: &str) -> (ok: bool)
        ensures
            ok <==> step::<S>(old(self)@, (Leaf { kind, text: text@ })) is Some,
            ok ==> Some(final(self)@) == step::<S>(old(self)@, (Leaf { kind, text: text@ })),
            !ok ==> final(self)@ == old(self)@,
    {
        let ghost before = self@;
        match Syntax2D::<S>::try_from_raw(kind) {
            None => false,
            Some(Syntax2D::Indent) => {
                self.stack.push(String::from_str(text));
                self.pending = true;
                assert(self@.stack =~= before.stack.push(text@));
                true
            },
            Some(Syntax2D::Dedent) => {
                if self.stack.len() == 0 {
                    false
                } else {
                    self.stack.pop();
                    assert(self@.stack =~= before.stack.drop_last());
                    true
                }
            },
            Some(Syntax2D::Newline) => {
                self.output.append("\n");
                self.pending = self.stack.len() > 0;
                proof {
                    reveal_strlit("\n");
                    assert("\n"@ =~= seq!['\n']);
                    assert(self@.output =~= before.output.push('\n'));
                }
                true
            },
            Some(Syntax2D::Token(_)) => {
                if self.pending {
                    self.write_indentation();
                    self.pending = false;
                }
                self.output.append(text);
                true
            },
        }
    }
}

} // verus!
