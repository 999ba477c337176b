//! Green trees: the builder facade and the reconstruction of their text.
//!
//! The trees are `cstree`'s. What this module knows of them is stated in the
//! contracts of the few functions that call into `cstree`.

use vstd::prelude::*;
use vstd::utf8::encode_utf8;
use core::marker::PhantomData;
use cstree::build::{GreenNodeBuilder, NodeCache};
use cstree::green::GreenNode;
use cstree::interning::{Resolver, TokenInterner};
use cstree::util::NodeOrToken;
use cstree::RawSyntaxKind;
use crate::syntax::{Syntax2D, TokenKind, DEDENT_RAW, INDENT_RAW, NEWLINE_RAW};
use crate::text::{
    all_decodable, balanced, defined_iff_balanced, reconstruct, run, run_concat, run_one,
    run_stays_failed, Leaf, TextState,
};

verus! {

/// `cstree::green::GreenNode`, an interior node of a frozen tree; opaque.
#[verifier::external_type_specification]
#[verifier::external_body]
pub struct ExGreenNode(GreenNode);

/// `cstree::interning::TokenInterner`, the texts of a tree's leaves; opaque.
#[verifier::external_type_specification]
#[verifier::external_body]
pub struct ExTokenInterner(TokenInterner);

/// `cstree::build::NodeCache`, which owns the interner of a finished tree;
/// opaque.
#[verifier::external_type_specification]
#[verifier::external_body]
#[verifier::reject_recursive_types(I)]
pub struct ExNodeCache<'i, I>(NodeCache<'i, I>);

/// `cstree::RawSyntaxKind`, a raw code in its one public field.
#[verifier::external_type_specification]
pub struct ExRawSyntaxKind(RawSyntaxKind);

/// The kind under which every element is stored in the tree: its raw code,
/// with no fixed text, so that each leaf carries the text it was given.
#[derive(Debug, Clone, Copy, PartialEq, Eq)]
pub struct RawKind(pub u32);

impl cstree::Syntax for RawKind {
    fn from_raw(raw: RawSyntaxKind) -> (kind: Self)
        ensures
            kind.0 == raw.0,
    {
        RawKind(raw.0)
    }

    fn into_raw(self) -> (raw: RawSyntaxKind)
        ensures
            raw.0 == self.0,
    {
        RawSyntaxKind(self.0)
    }

    fn static_text(self) -> (text: Option<&'static str>)
        ensures
            text is None,
    {
        None
    }
}

/// The tree under construction: `cstree`'s builder with its own cache and
/// interner, every kind stored by its raw code.
#[verifier::external_body]
pub struct GreenBuilder {
    inner: GreenNodeBuilder<'static, 'static, RawKind, TokenInterner>,
}

/// The number of keys that the interner has: it holds no more texts.
pub const TEXT_LIMIT: usize = 4294967295;

/// The most bytes of text that one node can cover: a node records the length
/// of its text in 32 bits.
pub const NODE_LIMIT: u64 = 4294967295;

/// An element that waits for its parent to be finished: a leaf with its raw
/// kind and text, or a finished node.
pub enum Waiting {
    Leaf(Leaf),
    Node(GreenNode),
}

/// For each node that is started and not finished, from the outermost in:
/// the number of elements that were waiting when it was started, and its
/// raw kind.
pub uninterp spec fn builder_open(builder: GreenBuilder) -> Seq<(nat, u32)>;

/// The elements that wait for their parent to be finished, in document
/// order.
pub uninterp spec fn builder_waiting(builder: GreenBuilder) -> Seq<Waiting>;

/// The texts that the builder's interner holds.
pub uninterp spec fn builder_texts(builder: GreenBuilder) -> Set<Seq<char>>;

/// The texts that the interner of a cache holds.
pub uninterp spec fn cache_texts(cache: NodeCache<'static, TokenInterner>) -> Set<Seq<char>>;

/// True where the resolver gives, for every key that the builder's interner
/// has given out, the text that the key was given out for.
pub uninterp spec fn resolves(resolver: TokenInterner, builder: GreenBuilder) -> bool;

/// True where the resolver is the interner that the cache holds.
pub uninterp spec fn cache_holds(cache: NodeCache<'static, TokenInterner>, resolver: TokenInterner) ->
    bool;

/// The number of nodes that the builder's cache of nodes holds.
pub uninterp spec fn builder_cached(builder: GreenBuilder) -> nat;

/// The raw kind of a node.
pub uninterp spec fn node_kind(node: GreenNode) -> u32;

/// The length in bytes that a node records for the text it covers.
pub uninterp spec fn node_bytes(node: GreenNode) -> nat;

/// The number of elements that were waiting when the innermost started node
/// was started.
pub open spec fn start_of(builder: GreenBuilder) -> nat {
    builder_open(builder).last().0
}

/// The elements that the innermost started node takes when it is finished:
/// those that came after its start.
pub open spec fn taken_by(builder: GreenBuilder) -> Seq<Waiting> {
    builder_waiting(builder).skip(start_of(builder) as int)
}

/// The length in bytes that a leaf records for its text: the length of the
/// text as UTF-8, cut to 32 bits.
pub open spec fn stored_len(text: Seq<char>) -> nat {
    (encode_utf8(text).len() % 4294967296) as nat
}

/// The length in bytes that a waiting element records for its text.
pub open spec fn bytes_of(element: Waiting) -> nat {
    match element {
        Waiting::Leaf(leaf) => stored_len(leaf.text),
        Waiting::Node(node) => node_bytes(node),
    }
}

/// The sum of the lengths that the elements record.
pub open spec fn total_bytes(elements: Seq<Waiting>) -> nat
    decreases elements.len(),
{
    if elements.len() == 0 {
        0
    } else {
        total_bytes(elements.drop_last()) + bytes_of(elements.last())
    }
}

/// Calls `GreenNodeBuilder::new`. The contract claims that nothing is
/// started, nothing waits, no text is interned and no node is cached.
#[verifier::external_body]
fn green_new() -> (builder: GreenBuilder)
    ensures
        builder_open(builder) == Seq::<(nat, u32)>::empty(),
        builder_waiting(builder) == Seq::<Waiting>::empty(),
        builder_texts(builder) == Set::<Seq<char>>::empty(),
        builder_cached(builder) == 0,
{
    GreenBuilder { inner: GreenNodeBuilder::new() }
}

/// Calls `GreenNodeBuilder::start_node`. The contract claims that the node
/// is recorded with its kind and the number of elements that wait, and that
/// these and the interner stay, so that a resolver that serves the builder
/// afterwards served it before.
#[verifier::external_body]
fn green_start_node(builder: &mut GreenBuilder, kind: u32)
    ensures
        builder_open(*final(builder)) == builder_open(*old(builder)).push(
            (builder_waiting(*old(builder)).len(), kind),
        ),
        builder_waiting(*final(builder)) == builder_waiting(*old(builder)),
        builder_texts(*final(builder)) == builder_texts(*old(builder)),
        forall|resolver: TokenInterner| #[trigger]
            resolves(resolver, *final(builder)) ==> resolves(resolver, *old(builder)),
        builder_cached(*final(builder)) == builder_cached(*old(builder)),
{
    builder.inner.start_node(RawKind(kind));
}

/// Calls `GreenNodeBuilder::finish_node`, which fails with nothing started,
/// and where the lengths of the elements that the node takes add up to more
/// than 32 bits hold. The contract claims that the innermost started node
/// takes the elements that came after its start and waits in their place,
/// that it has the kind it was started with and records the sum of their
/// lengths, that the waiting elements are no more than a vector holds, and
/// that the interner stays. Of the node's children it claims something only
/// where the node takes more than three elements, or no node is cached yet:
/// the elements are then its children, in order, each lower than the node,
/// and a resolver that serves the builder gives each leaf the text it was
/// appended with. A node of up to three children is looked up in the cache
/// by its kind, its length and a hash of its children alone and is cached
/// where none was found, so nothing is claimed of the children of a small
/// node once a node is cached. A greater node is never cached.
#[verifier::external_body]
fn green_finish_node(builder: &mut GreenBuilder)
    requires
        builder_open(*old(builder)).len() > 0,
        start_of(*old(builder)) <= builder_waiting(*old(builder)).len(),
        total_bytes(taken_by(*old(builder))) <= NODE_LIMIT,
    ensures
        builder_open(*final(builder)) == builder_open(*old(builder)).drop_last(),
        builder_waiting(*final(builder)).len() == start_of(*old(builder)) + 1,
        builder_waiting(*final(builder)).drop_last() == builder_waiting(*old(builder)).take(
            start_of(*old(builder)) as int,
        ),
        builder_waiting(*final(builder)).last() matches Waiting::Node(node) && node_kind(node)
            == builder_open(*old(builder)).last().1 && node_bytes(node) == total_bytes(
            taken_by(*old(builder)),
        ),
        builder_waiting(*final(builder)).last() matches Waiting::Node(node) && (taken_by(
            *old(builder),
        ).len() > CACHED_CHILDREN || builder_cached(*old(builder)) == 0 ==> children_are(
            node,
            taken_by(*old(builder)),
            *final(builder),
        )),
        forall|resolver: TokenInterner| #[trigger]
            resolves(resolver, *final(builder)) ==> resolves(resolver, *old(builder)),
        builder_cached(*final(builder)) <= builder_cached(*old(builder)) + 1,
        taken_by(*old(builder)).len() > CACHED_CHILDREN ==> builder_cached(*final(builder))
            == builder_cached(*old(builder)),
        builder_waiting(*final(builder)).len() <= usize::MAX,
        builder_texts(*final(builder)) == builder_texts(*old(builder)),
{
    builder.inner.finish_node();
}

/// Calls `GreenNodeBuilder::token`, which interns the text and fails where
/// the text is new and the interner has no key left. The contract claims
/// that a leaf of this kind and text waits after the others, that the
/// waiting elements are no more than a vector holds, that the text is
/// interned, and that the keys given out before stay: a resolver that
/// serves the builder afterwards served it before.
#[verifier::external_body]
fn green_token(builder: &mut GreenBuilder, kind: u32, text: &str)
    requires
        builder_texts(*old(builder)).finite(),
        builder_texts(*old(builder)).contains(text@) || builder_texts(*old(builder)).len()
            < TEXT_LIMIT,
    ensures
        builder_open(*final(builder)) == builder_open(*old(builder)),
        builder_waiting(*final(builder)) == builder_waiting(*old(builder)).push(
            Waiting::Leaf(Leaf { kind, text: text@ }),
        ),
        builder_waiting(*final(builder)).len() <= usize::MAX,
        builder_texts(*final(builder)) == builder_texts(*old(builder)).insert(text@),
        forall|resolver: TokenInterner| #[trigger]
            resolves(resolver, *final(builder)) ==> resolves(resolver, *old(builder)),
        builder_cached(*final(builder)) == builder_cached(*old(builder)),
{
    builder.inner.token(RawKind(kind), text);
}

/// Calls `GreenNodeBuilder::finish`, which fails unless one element waits
/// and that element is a node. The contract claims that this node comes
/// back, and with it the builder's own cache, whose interner holds the
/// builder's texts and serves the builder.
#[verifier::external_body]
fn green_finish(builder: GreenBuilder) -> (out: (
    GreenNode,
    Option<NodeCache<'static, TokenInterner>>,
))
    requires
        builder_waiting(builder).len() == 1,
        builder_waiting(builder)[0] is Node,
    ensures
        Waiting::Node(out.0) == builder_waiting(builder)[0],
        out.1 is Some,
        cache_texts(out.1.unwrap()) == builder_texts(builder),
        forall|resolver: TokenInterner| #[trigger]
            cache_holds(out.1.unwrap(), resolver) ==> resolves(resolver, builder),
{
    builder.inner.finish()
}

/// Builder of indentation-aware trees: a facade that turns structural
/// intent into nodes and leaves of the tree under construction.
///
/// It keeps count of what it has handed over, so that it can tell whether
/// a node can be finished and whether the tree is complete.
pub struct Builder<S: TokenKind> {
    inner: GreenBuilder,
    starts: Vec<usize>,
    sums: Vec<u64>,
    count: usize,
    last_is_node: bool,
    leaves: usize,
    kind: PhantomData<S>,
}

/// A count of leaves after `more` further leaves: it stops at the highest
/// machine word.
pub open spec fn counted(before: nat, more: nat) -> nat {
    if before + more <= usize::MAX {
        before + more
    } else {
        usize::MAX as nat
    }
}

/// The dedent leaf: its text is empty.
pub open spec fn dedent_leaf() -> Waiting {
    Waiting::Leaf(Leaf { kind: DEDENT_RAW, text: Seq::empty() })
}

/// A sum of lengths as the builder keeps it: exact up to the most that a
/// node can cover, and one more than that for every greater sum.
spec fn capped(sum: nat) -> nat {
    if sum <= NODE_LIMIT {
        sum
    } else {
        (NODE_LIMIT + 1) as nat
    }
}

/// The waiting elements that came after the start of the `k`-th started
/// node and before the start of the next; for `k` zero, those that came
/// before any start.
spec fn frame(open: Seq<(nat, u32)>, waiting: Seq<Waiting>, k: int) -> Seq<Waiting> {
    waiting.subrange(
        if k == 0 {
            0
        } else {
            open[k - 1].0 as int
        },
        if k == open.len() {
            waiting.len() as int
        } else {
            open[k].0 as int
        },
    )
}

/// The children of a node are the elements that it took, as far as that can
/// be said without a resolver: as many, in the same order, each leaf of the
/// kind of its element, each interior child the node of its element.
pub open spec fn same_shape(children: Seq<Child>, taken: Seq<Waiting>) -> bool {
    &&& children.len() == taken.len()
    &&& forall|i: int|
        0 <= i < taken.len() ==> match #[trigger] taken[i] {
            Waiting::Leaf(leaf) => children[i] matches Child::Token { kind, .. } && kind
                == leaf.kind,
            Waiting::Node(node) => children[i] == Child::Node(node),
        }
}

/// Under this resolver each leaf among the children has the text of its
/// element.
pub open spec fn same_texts(children: Seq<Child>, taken: Seq<Waiting>) -> bool {
    forall|i: int|
        0 <= i < taken.len() ==> (#[trigger] taken[i] matches Waiting::Leaf(leaf)
            ==> children[i] matches Child::Token { text: Some(text), .. } && text@ == leaf.text)
}

/// The children of a node are the elements that it took: each interior one
/// lower than the node, all of them in order whatever the resolver, and
/// each leaf with the text it was appended with under a resolver that
/// serves the builder.
pub open spec fn children_are(node: GreenNode, taken: Seq<Waiting>, builder: GreenBuilder) -> bool {
    &&& forall|i: int|
        0 <= i < taken.len() ==> (#[trigger] taken[i] matches Waiting::Node(child)
            ==> node_height(child) < node_height(node))
    &&& forall|resolver: TokenInterner|
        same_shape(#[trigger] node_children(node, resolver), taken)
    &&& forall|resolver: TokenInterner| #[trigger]
        resolves(resolver, builder) ==> same_texts(node_children(node, resolver), taken)
}

/// The leaves below a waiting element, in document order.
pub open spec fn element_leaves(element: Waiting, resolver: TokenInterner) -> Seq<Leaf> {
    match element {
        Waiting::Leaf(leaf) => seq![leaf],
        Waiting::Node(node) => tree_leaves(node, resolver),
    }
}

/// The leaves below a sequence of waiting elements, in document order.
pub open spec fn flat_leaves(elements: Seq<Waiting>, resolver: TokenInterner) -> Seq<Leaf>
    decreases elements.len(),
{
    if elements.len() == 0 {
        Seq::empty()
    } else {
        flat_leaves(elements.drop_last(), resolver) + element_leaves(elements.last(), resolver)
    }
}

/// Elements that are all leaves have themselves as their leaves, whatever
/// the resolver.
pub proof fn leaves_of_leaves(elements: Seq<Waiting>, leaves: Seq<Leaf>, resolver: TokenInterner)
    requires
        elements.len() == leaves.len(),
        forall|i: int| 0 <= i < leaves.len() ==> #[trigger] elements[i] == Waiting::Leaf(leaves[i]),
    ensures
        flat_leaves(elements, resolver) == leaves,
    decreases elements.len(),
{
    if elements.len() > 0 {
        let front = elements.drop_last();
        let fewer = leaves.drop_last();
        assert forall|i: int| 0 <= i < fewer.len() implies #[trigger] front[i] == Waiting::Leaf(
            fewer[i],
        ) by {
            assert(front[i] == elements[i]);
        }
        leaves_of_leaves(front, fewer, resolver);
        assert(elements.last() == elements[elements.len() - 1]);
        assert(flat_leaves(elements, resolver) =~= leaves);
    } else {
        assert(leaves =~= Seq::<Leaf>::empty());
    }
}

/// Children that are the elements a node took have the leaves of those
/// elements.
proof fn children_have_the_leaves(
    children: Seq<Child>,
    taken: Seq<Waiting>,
    resolver: TokenInterner,
    bound: nat,
)
    requires
        same_shape(children, taken),
        same_texts(children, taken),
        forall|i: int|
            0 <= i < taken.len() ==> (#[trigger] taken[i] matches Waiting::Node(child)
                ==> node_height(child) < bound),
    ensures
        forest_leaves(children, resolver, bound) == flat_leaves(taken, resolver),
    decreases taken.len(),
{
    if taken.len() > 0 {
        let last = taken.len() - 1;
        let front = taken.drop_last();
        let before = children.drop_last();
        assert forall|i: int| 0 <= i < front.len() implies match #[trigger] front[i] {
            Waiting::Leaf(leaf) => before[i] matches Child::Token { kind, .. } && kind
                == leaf.kind,
            Waiting::Node(node) => before[i] == Child::Node(node),
        } by {
            assert(front[i] == taken[i]);
            assert(before[i] == children[i]);
        }
        assert forall|i: int| 0 <= i < front.len() implies (#[trigger] front[i] matches Waiting::Leaf(
            leaf,
        ) ==> before[i] matches Child::Token { text: Some(text), .. } && text@ == leaf.text) by {
            assert(front[i] == taken[i]);
            assert(before[i] == children[i]);
        }
        assert forall|i: int| 0 <= i < front.len() implies (#[trigger] front[i] matches Waiting::Node(
            child,
        ) ==> node_height(child) < bound) by {
            assert(front[i] == taken[i]);
        }
        children_have_the_leaves(before, front, resolver, bound);
        assert(taken[last] == taken.last());
        assert(children[last] == children.last());
        assert(child_leaves(children.last(), resolver, bound) == element_leaves(
            taken.last(),
            resolver,
        ));
    }
}

/// What is known of a node that was finished from the elements it took: it
/// has the kind it was started with and records the sum of their lengths.
pub open spec fn finished_from(element: Waiting, kind: u32, taken: Seq<Waiting>) -> bool {
    element matches Waiting::Node(node) && node_kind(node) == kind && node_bytes(node)
        == total_bytes(taken)
}

/// The most elements that a node can take and still be looked up in the
/// cache of nodes.
pub const CACHED_CHILDREN: usize = 3;

/// One more element adds its length to the sum.
proof fn total_bytes_push(elements: Seq<Waiting>, element: Waiting)
    ensures
        total_bytes(elements.push(element)) == total_bytes(elements) + bytes_of(element),
{
    assert(elements.push(element).drop_last() =~= elements);
}

impl<S: TokenKind> Builder<S> {
    /// For each node that is started and not finished, from the outermost
    /// in: the number of elements that were waiting when it was started, and
    /// its raw kind.
    pub closed spec fn open(&self) -> Seq<(nat, u32)> {
        builder_open(self.inner)
    }

    /// The elements that wait for their parent to be finished, in document
    /// order.
    pub closed spec fn waiting(&self) -> Seq<Waiting> {
        builder_waiting(self.inner)
    }

    /// The texts that the builder's interner holds.
    pub closed spec fn texts(&self) -> Set<Seq<char>> {
        builder_texts(self.inner)
    }

    /// The starts are in order and none lies beyond the waiting elements;
    /// the builder's own counts agree with the tree under construction.
    pub closed spec fn wf(&self) -> bool {
        &&& forall|i: int|
            0 <= i < self.open().len() ==> (#[trigger] self.open()[i]).0 <= self.waiting().len()
        &&& forall|i: int, j: int|
            0 <= i <= j < self.open().len() ==> self.open()[i].0 <= self.open()[j].0
        &&& self.starts@.len() == self.open().len()
        &&& forall|i: int|
            0 <= i < self.starts@.len() ==> #[trigger] self.starts@[i] == self.open()[i].0
        &&& self.sums@.len() == self.open().len() + 1
        &&& forall|k: int|
            0 <= k < self.sums@.len() ==> #[trigger] self.sums@[k] == capped(
                total_bytes(frame(self.open(), self.waiting(), k)),
            )
        &&& self.count == self.waiting().len()
        &&& self.last_is_node == (self.waiting().len() > 0 && self.waiting().last() is Node)
        &&& self.texts().finite()
        &&& self.texts().len() <= self.leaves
    }

    /// True where the resolver gives, for every leaf that was appended, the
    /// text it was appended with: the interner of the cache that `finish`
    /// hands out does.
    pub closed spec fn serves(&self, resolver: TokenInterner) -> bool {
        resolves(resolver, self.inner)
    }

    /// The number of nodes that the builder's cache of nodes holds: only
    /// nodes of up to three children are cached.
    pub closed spec fn cached(&self) -> nat {
        builder_cached(self.inner)
    }

    /// The children of the innermost started node are fixed when it is
    /// finished: it takes more than three elements, or no node is cached
    /// yet.
    pub open spec fn exact(&self) -> bool {
        self.taken().len() > CACHED_CHILDREN || self.cached() == 0
    }

    /// The number of leaves that were appended, counted as far as a machine
    /// word counts. The interner holds no more texts than that.
    pub closed spec fn appended(&self) -> nat {
        self.leaves as nat
    }

    /// The elements that the innermost started node takes when it is
    /// finished: those that came after its start.
    pub open spec fn taken(&self) -> Seq<Waiting> {
        self.waiting().skip(self.open().last().0 as int)
    }

    /// The innermost started node can be finished: one is started, and the
    /// lengths of the elements that it takes add up to no more than a node
    /// can cover.
    pub open spec fn can_finish(&self) -> bool {
        self.open().len() > 0 && total_bytes(self.taken()) <= NODE_LIMIT
    }

    /// One tree is complete: every started node is finished, and a single
    /// node waits.
    pub open spec fn complete(&self) -> bool {
        self.open().len() == 0 && self.waiting().len() == 1 && self.waiting()[0] is Node
    }

    /// The interner can take this text: it holds it, or has a key left.
    pub open spec fn can_take(&self, text: Seq<char>) -> bool {
        self.texts().contains(text) || self.texts().len() < TEXT_LIMIT
    }

    /// A builder with nothing started, nothing waiting and no text interned.
    pub fn new() -> (builder: Self)
        ensures
            builder.wf(),
            builder.open() == Seq::<(nat, u32)>::empty(),
            builder.waiting() == Seq::<Waiting>::empty(),
            builder.texts() == Set::<Seq<char>>::empty(),
            builder.appended() == 0,
            builder.cached() == 0,
    {
        let mut sums: Vec<u64> = Vec::new();
        sums.push(0);
        let builder = Builder {
            inner: green_new(),
            starts: Vec::new(),
            sums,
            count: 0,
            last_is_node: false,
            leaves: 0,
            kind: PhantomData,
        };
        assert(frame(builder.open(), builder.waiting(), 0) =~= Seq::<Waiting>::empty());
        builder
    }

    /// The number of nodes that are started and not finished.
    pub fn depth(&self) -> (depth: usize)
        requires
            self.wf(),
        ensures
            depth == self.open().len(),
    {
        self.starts.len()
    }

    /// Tells whether one tree is complete.
    pub fn is_complete(&self) -> (complete: bool)
        requires
            self.wf(),
        ensures
            complete == self.complete(),
    {
        self.starts.len() == 0 && self.count == 1 && self.last_is_node
    }

    /// Tells whether the innermost started node can be finished.
    pub fn can_finish_node(&self) -> (can: bool)
        requires
            self.wf(),
        ensures
            can == self.can_finish(),
    {
        let depth = self.starts.len();
        proof {
            if depth > 0 {
                assert(frame(self.open(), self.waiting(), depth as int) =~= self.taken());
            }
        }
        depth > 0 && self.sums[depth] <= NODE_LIMIT
    }

    /// Tells whether fewer leaves were appended than the interner has keys.
    /// The interner then surely has a key left, whatever text comes next.
    pub fn has_room(&self) -> (room: bool)
        requires
            self.wf(),
        ensures
            room == (self.appended() < TEXT_LIMIT),
            self.texts().len() <= self.appended(),
            room ==> forall|text: Seq<char>| self.can_take(text),
    {
        self.leaves < TEXT_LIMIT
    }

    /// Starts a node of the caller's kind.
    pub fn start_node(&mut self, kind: S)
        requires
            old(self).wf(),
        ensures
            final(self).wf(),
            final(self).open() == old(self).open().push(
                (old(self).waiting().len(), kind.encoding()),
            ),
            final(self).waiting() == old(self).waiting(),
            final(self).texts() == old(self).texts(),
            final(self).appended() == old(self).appended(),
            forall|resolver: TokenInterner| #[trigger]
                final(self).serves(resolver) ==> old(self).serves(resolver),
            final(self).cached() == old(self).cached(),
    {
        let raw = Syntax2D::Token(kind).into_raw();
        green_start_node(&mut self.inner, raw);
        self.starts.push(self.count);
        self.sums.push(0);
        proof {
            let depth = old(self).open().len() as int;
            assert forall|k: int| 0 <= k < self.sums@.len() implies #[trigger] self.sums@[k]
                == capped(total_bytes(frame(self.open(), self.waiting(), k))) by {
                if k <= depth {
                    assert(self.sums@[k] == old(self).sums@[k]);
                    assert(frame(self.open(), self.waiting(), k) =~= frame(
                        old(self).open(),
                        old(self).waiting(),
                        k,
                    ));
                } else {
                    assert(frame(self.open(), self.waiting(), k) =~= Seq::<Waiting>::empty());
                }
            }
        }
    }

    /// Finishes the innermost started node: it takes the elements that came
    /// after its start and waits in their place, with the kind it was
    /// started with and the sum of their lengths. Where it takes more than
    /// three elements, or no node is cached yet, its leaves are theirs;
    /// another node may be one that the cache of nodes held already, and
    /// nothing is said of its leaves.
    pub fn finish_node(&mut self)
        requires
            old(self).wf(),
            old(self).can_finish(),
        ensures
            final(self).wf(),
            final(self).open() == old(self).open().drop_last(),
            final(self).waiting().len() == old(self).open().last().0 + 1,
            final(self).waiting().drop_last() == old(self).waiting().take(
                old(self).open().last().0 as int,
            ),
            finished_from(
                final(self).waiting().last(),
                old(self).open().last().1,
                old(self).taken(),
            ),
            old(self).exact() ==> forall|resolver: TokenInterner| #[trigger]
                final(self).serves(resolver) ==> element_leaves(
                    final(self).waiting().last(),
                    resolver,
                ) == flat_leaves(old(self).taken(), resolver),
            final(self).texts() == old(self).texts(),
            final(self).appended() == old(self).appended(),
            forall|resolver: TokenInterner| #[trigger]
                final(self).serves(resolver) ==> old(self).serves(resolver),
            final(self).cached() <= old(self).cached() + 1,
            old(self).taken().len() > CACHED_CHILDREN ==> final(self).cached() == old(self).cached(),
    {
        green_finish_node(&mut self.inner);
        let start = self.starts.pop().unwrap();
        let taken = self.sums.pop().unwrap();
        let below = self.sums.pop().unwrap();
        let sum = if below + taken > NODE_LIMIT {
            NODE_LIMIT + 1
        } else {
            below + taken
        };
        self.sums.push(sum);
        self.count = start + 1;
        self.last_is_node = true;
        proof {
            let depth = old(self).open().len() as int;
            let before = old(self).waiting();
            let cut = old(self).open().last().0 as int;
            if old(self).exact() {
                let element = self.waiting().last();
                assert forall|resolver: TokenInterner| #[trigger]
                    self.serves(resolver) implies element_leaves(element, resolver)
                    == flat_leaves(old(self).taken(), resolver) by {
                    if let Waiting::Node(node) = element {
                        children_have_the_leaves(
                            node_children(node, resolver),
                            old(self).taken(),
                            resolver,
                            node_height(node),
                        );
                    }
                }
            }
            assert(frame(old(self).open(), before, depth) =~= old(self).taken());
            assert(taken == old(self).sums@[depth]);
            assert(below == old(self).sums@[depth - 1]);
            assert forall|k: int| 0 <= k < self.sums@.len() implies #[trigger] self.sums@[k]
                == capped(total_bytes(frame(self.open(), self.waiting(), k))) by {
                if k < depth - 1 {
                    assert(self.sums@[k] == old(self).sums@[k]);
                    assert(old(self).open()[k].0 <= old(self).open()[depth - 1].0);
                    assert(self.waiting().drop_last() == before.take(cut));
                    assert(frame(self.open(), self.waiting(), k) =~= frame(
                        old(self).open(),
                        before,
                        k,
                    )) by {
                        let low = if k == 0 {
                            0
                        } else {
                            old(self).open()[k - 1].0 as int
                        };
                        let high = old(self).open()[k].0 as int;
                        assert(low <= high <= cut);
                        assert forall|i: int| low <= i < high implies self.waiting()[i]
                            == before[i] by {
                            assert(self.waiting().drop_last()[i] == before.take(cut)[i]);
                        }
                    }
                } else {
                    let low = if k == 0 {
                        0
                    } else {
                        old(self).open()[k - 1].0 as int
                    };
                    assert(low <= cut);
                    let lower = frame(old(self).open(), before, k);
                    assert(lower =~= before.subrange(low, cut));
                    assert(frame(self.open(), self.waiting(), k) =~= lower.push(
                        self.waiting().last(),
                    )) by {
                        assert forall|i: int| low <= i < cut implies self.waiting()[i]
                            == before[i] by {
                            assert(self.waiting().drop_last()[i] == before.take(cut)[i]);
                        }
                    }
                    total_bytes_push(lower, self.waiting().last());
                }
            }
        }
    }

    /// Finishes the innermost started node where it can be finished, and
    /// says so where it cannot; the builder is then left as it was.
    pub fn try_finish_node(&mut self) -> (done: bool)
        requires
            old(self).wf(),
        ensures
            final(self).wf(),
            done == old(self).can_finish(),
            done ==> final(self).open() == old(self).open().drop_last(),
            done ==> final(self).waiting().len() == old(self).open().last().0 + 1,
            done ==> final(self).waiting().drop_last() == old(self).waiting().take(
                old(self).open().last().0 as int,
            ),
            done ==> finished_from(
                final(self).waiting().last(),
                old(self).open().last().1,
                old(self).taken(),
            ),
            done && old(self).exact() ==> forall|resolver: TokenInterner|
                #[trigger] final(self).serves(resolver) ==> element_leaves(
                    final(self).waiting().last(),
                    resolver,
                ) == flat_leaves(old(self).taken(), resolver),
            !done ==> final(self).open() == old(self).open(),
            !done ==> final(self).waiting() == old(self).waiting(),
            !done ==> final(self).cached() == old(self).cached(),
            final(self).texts() == old(self).texts(),
            final(self).appended() == old(self).appended(),
            forall|resolver: TokenInterner| #[trigger]
                final(self).serves(resolver) ==> old(self).serves(resolver),
            final(self).cached() <= old(self).cached() + 1,
            old(self).taken().len() > CACHED_CHILDREN ==> final(self).cached() == old(self).cached(),
    {
        if self.can_finish_node() {
            self.finish_node();
            true
        } else {
            false
        }
    }

    /// Hands one leaf over and counts it.
    fn leaf(&mut self, raw: u32, text: &str)
        requires
            old(self).wf(),
            old(self).can_take(text@),
        ensures
            final(self).wf(),
            final(self).open() == old(self).open(),
            final(self).waiting() == old(self).waiting().push(
                Waiting::Leaf(Leaf { kind: raw, text: text@ }),
            ),
            final(self).texts() == old(self).texts().insert(text@),
            final(self).appended() == counted(old(self).appended(), 1),
            forall|resolver: TokenInterner| #[trigger]
                final(self).serves(resolver) ==> old(self).serves(resolver),
            final(self).cached() == old(self).cached(),
    {
        green_token(&mut self.inner, raw, text);
        let stored: u64 = (text.as_bytes().len() as u64) % 4294967296;
        let top = self.sums.pop().unwrap();
        let sum = if top + stored > NODE_LIMIT {
            NODE_LIMIT + 1
        } else {
            top + stored
        };
        self.sums.push(sum);
        self.count = self.count + 1;
        self.last_is_node = false;
        if self.leaves < usize::MAX {
            self.leaves = self.leaves + 1;
        }
        proof {
            let depth = old(self).open().len() as int;
            let before = old(self).waiting();
            let element = Waiting::Leaf(Leaf { kind: raw, text: text@ });
            assert(stored == bytes_of(element));
            assert forall|k: int| 0 <= k < self.sums@.len() implies #[trigger] self.sums@[k]
                == capped(total_bytes(frame(self.open(), self.waiting(), k))) by {
                if k < depth {
                    assert(self.sums@[k] == old(self).sums@[k]);
                    assert(old(self).open()[k].0 <= before.len());
                    assert(frame(self.open(), self.waiting(), k) =~= frame(
                        old(self).open(),
                        before,
                        k,
                    ));
                } else {
                    let lower = frame(old(self).open(), before, k);
                    if k > 0 {
                        assert(old(self).open()[k - 1].0 <= before.len());
                    }
                    assert(frame(self.open(), self.waiting(), k) =~= lower.push(element));
                    total_bytes_push(lower, element);
                }
            }
        }
    }

    /// Appends a leaf of the caller's kind with its literal text.
    pub fn token(&mut self, kind: S, text: &str)
        requires
            old(self).wf(),
            old(self).can_take(text@),
        ensures
            final(self).wf(),
            final(self).open() == old(self).open(),
            final(self).waiting() == old(self).waiting().push(
                Waiting::Leaf(Leaf { kind: kind.encoding(), text: text@ }),
            ),
            final(self).texts() == old(self).texts().insert(text@),
            final(self).appended() == counted(old(self).appended(), 1),
            forall|resolver: TokenInterner| #[trigger]
                final(self).serves(resolver) ==> old(self).serves(resolver),
            final(self).cached() == old(self).cached(),
    {
        let raw = Syntax2D::Token(kind).into_raw();
        self.leaf(raw, text);
    }

    /// Appends an indent leaf that carries the indentation string.
    pub fn indent(&mut self, indent_str: &str)
        requires
            old(self).wf(),
            old(self).can_take(indent_str@),
        ensures
            final(self).wf(),
            final(self).open() == old(self).open(),
            final(self).waiting() == old(self).waiting().push(
                Waiting::Leaf(Leaf { kind: INDENT_RAW, text: indent_str@ }),
            ),
            final(self).texts() == old(self).texts().insert(indent_str@),
            final(self).appended() == counted(old(self).appended(), 1),
            forall|resolver: TokenInterner| #[trigger]
                final(self).serves(resolver) ==> old(self).serves(resolver),
            final(self).cached() == old(self).cached(),
    {
        let raw = Syntax2D::<S>::Indent.into_raw();
        self.leaf(raw, indent_str);
    }

    /// Appends a dedent leaf. Its text is empty: only the indent has to
    /// remember the string.
    pub fn dedent(&mut self)
        requires
            old(self).wf(),
            old(self).can_take(Seq::empty()),
        ensures
            final(self).wf(),
            final(self).open() == old(self).open(),
            final(self).waiting() == old(self).waiting().push(dedent_leaf()),
            final(self).texts() == old(self).texts().insert(Seq::empty()),
            final(self).appended() == counted(old(self).appended(), 1),
            forall|resolver: TokenInterner| #[trigger]
                final(self).serves(resolver) ==> old(self).serves(resolver),
            final(self).cached() == old(self).cached(),
    {
        proof {
            reveal_strlit("");
            assert(""@ =~= Seq::<char>::empty());
        }
        let raw = Syntax2D::<S>::Dedent.into_raw();
        self.leaf(raw, "");
    }

    /// Appends `count` dedent leaves.
    pub fn dedents(&mut self, count: usize)
        requires
            old(self).wf(),
            old(self).can_take(Seq::empty()),
        ensures
            final(self).wf(),
            final(self).open() == old(self).open(),
            final(self).waiting() == old(self).waiting() + Seq::new(
                count as nat,
                |i: int| dedent_leaf(),
            ),
            final(self).texts() == if count > 0 {
                old(self).texts().insert(Seq::empty())
            } else {
                old(self).texts()
            },
            final(self).appended() == counted(old(self).appended(), count as nat),
            forall|resolver: TokenInterner| #[trigger]
                final(self).serves(resolver) ==> old(self).serves(resolver),
            final(self).cached() == old(self).cached(),
    {
        let ghost before = self.waiting();
        let mut done: usize = 0;
        assert(before + Seq::new(0, |i: int| dedent_leaf()) =~= before);
        while done < count
            invariant
                done <= count,
                self.wf(),
                self.can_take(Seq::empty()),
                self.open() == old(self).open(),
                self.waiting() == before + Seq::new(done as nat, |i: int| dedent_leaf()),
                self.texts() == if done > 0 {
                    old(self).texts().insert(Seq::empty())
                } else {
                    old(self).texts()
                },
                self.appended() == counted(old(self).appended(), done as nat),
                forall|resolver: TokenInterner| #[trigger]
                    self.serves(resolver) ==> old(self).serves(resolver),
                self.cached() == old(self).cached(),
            decreases count - done,
        {
            self.dedent();
            done += 1;
            assert(self.waiting() =~= before + Seq::new(done as nat, |i: int| dedent_leaf()));
            assert(self.texts() =~= old(self).texts().insert(Seq::empty()));
        }
    }

    /// Appends a newline leaf that carries the newline character.
    pub fn newline(&mut self)
        requires
            old(self).wf(),
            old(self).can_take(seq!['\n']),
        ensures
            final(self).wf(),
            final(self).open() == old(self).open(),
            final(self).waiting() == old(self).waiting().push(
                Waiting::Leaf(Leaf { kind: NEWLINE_RAW, text: seq!['\n'] }),
            ),
            final(self).texts() == old(self).texts().insert(seq!['\n']),
            final(self).appended() == counted(old(self).appended(), 1),
            forall|resolver: TokenInterner| #[trigger]
                final(self).serves(resolver) ==> old(self).serves(resolver),
            final(self).cached() == old(self).cached(),
    {
        proof {
            reveal_strlit("\n");
            assert("\n"@ =~= seq!['\n']);
        }
        let raw = Syntax2D::<S>::Newline.into_raw();
        self.leaf(raw, "\n");
    }

    /// Freezes the builder and hands out the tree and the cache: the node
    /// that waits, and the builder's own cache, whose interner holds the
    /// builder's texts.
    pub fn finish(self) -> (out: (GreenNode, Option<NodeCache<'static, TokenInterner>>))
        requires
            self.complete(),
        ensures
            Waiting::Node(out.0) == self.waiting()[0],
            out.1 is Some,
            cache_texts(out.1.unwrap()) == self.texts(),
            forall|resolver: TokenInterner| #[trigger]
                cache_holds(out.1.unwrap(), resolver) ==> self.serves(resolver),
    {
        green_finish(self.inner)
    }

    /// Freezes the builder where one tree is complete, and hands the
    /// builder back where it is not.
    pub fn try_finish(self) -> (out: Result<
        (GreenNode, Option<NodeCache<'static, TokenInterner>>),
        Self,
    >)
        requires
            self.wf(),
        ensures
            out is Ok <==> self.complete(),
            out matches Ok(tree) ==> Waiting::Node(tree.0) == self.waiting()[0] && tree.1 is Some
                && cache_texts(tree.1.unwrap()) == self.texts(),
            out matches Ok(tree) ==> forall|resolver: TokenInterner| #[trigger]
                cache_holds(tree.1.unwrap(), resolver) ==> self.serves(resolver),
            out matches Err(builder) ==> builder == self,
    {
        if self.is_complete() {
            Ok(self.finish())
        } else {
            Err(self)
        }
    }
}

impl<S: TokenKind> Default for Builder<S> {
    fn default() -> (builder: Self)
        ensures
            builder.wf(),
            builder.open() == Seq::<(nat, u32)>::empty(),
            builder.waiting() == Seq::<Waiting>::empty(),
            builder.texts() == Set::<Seq<char>>::empty(),
            builder.appended() == 0,
            builder.cached() == 0,
    {
        Builder::new()
    }
}

/// A child of a node, as reconstruction reads it: an interior node, or a
/// leaf with its raw kind and its text, where the resolver knows one.
pub enum Child {
    Node(GreenNode),
    Token { kind: u32, text: Option<String> },
}

/// The children of a node in document order, the text of each leaf looked up
/// in the resolver.
pub uninterp spec fn node_children(node: GreenNode, resolver: TokenInterner) -> Seq<Child>;

/// The height of a node: more than that of each interior child.
pub uninterp spec fn node_height(node: GreenNode) -> nat;

/// Calls `GreenNode::children` and, for each leaf, `GreenToken::kind`,
/// `GreenToken::text_key` and `Resolver::try_resolve`. The contract claims
/// that the result is the node's children in order, and that an interior
/// child is less high than its parent: a green tree is built from the leaves
/// up and never changed, so it is finite and holds no cycle.
#[verifier::external_body]
fn children_of(node: &GreenNode, resolver: &TokenInterner) -> (out: Vec<Child>)
    ensures
        out@ == node_children(*node, *resolver),
        forall|i: int|
            0 <= i < out@.len() ==> (#[trigger] out@[i] matches Child::Node(child) ==> node_height(
                child,
            ) < node_height(*node)),
{
    node.children().map(|child| match child {
        NodeOrToken::Node(n) => Child::Node(n.clone()),
        NodeOrToken::Token(t) => Child::Token {
            kind: t.kind().0,
            text: t.text_key().and_then(|key| resolver.try_resolve(key)).map(String::from),
        },
    }).collect()
}

/// The leaf that a token child stands for: a text that is absent counts as
/// empty.
pub open spec fn leaf_of(kind: u32, text: Option<String>) -> Leaf {
    Leaf {
        kind,
        text: match text {
            Some(t) => t@,
            None => Seq::empty(),
        },
    }
}

/// The leaves below one child, in document order.
pub open spec fn child_leaves(child: Child, resolver: TokenInterner, bound: nat) -> Seq<Leaf>
    decreases bound, 0nat, 1nat,
{
    match child {
        Child::Token { kind, text } => seq![leaf_of(kind, text)],
        Child::Node(n) => if node_height(n) < bound {
            forest_leaves(node_children(n, resolver), resolver, node_height(n))
        } else {
            Seq::empty()
        },
    }
}

/// The leaves below a sequence of children, in document order. `bound` is
/// the height of their parent.
pub open spec fn forest_leaves(children: Seq<Child>, resolver: TokenInterner, bound: nat) -> Seq<
    Leaf,
>
    decreases bound, children.len(), 0nat,
{
    if children.len() == 0 {
        Seq::empty()
    } else {
        forest_leaves(children.drop_last(), resolver, bound) + child_leaves(
            children.last(),
            resolver,
            bound,
        )
    }
}

/// The leaves of a tree in document order: node boundaries are transparent.
pub open spec fn tree_leaves(node: GreenNode, resolver: TokenInterner) -> Seq<Leaf> {
    forest_leaves(node_children(node, resolver), resolver, node_height(node))
}

/// Threads a reconstruction through the leaves of a tree, depth first and
/// in document order. After a leaf that cannot be taken nothing more is
/// taken.
fn walk<S: TokenKind>(node: &GreenNode, resolver: &TokenInterner, state: &mut TextState) -> (ok:
    bool)
    ensures
        ok <==> run::<S>(Some(old(state)@), tree_leaves(*node, *resolver)) is Some,
        ok ==> Some(final(state)@) == run::<S>(Some(old(state)@), tree_leaves(*node, *resolver)),
    decreases node_height(*node),
{
    let children = children_of(node, resolver);
    let ghost start = state@;
    let ghost bound = node_height(*node);
    let mut ok = true;
    let mut i: usize = 0;
    assert(children@.take(0) =~= Seq::<Child>::empty());
    while i < children.len()
        invariant
            i <= children.len(),
            bound == node_height(*node),
            children@ == node_children(*node, *resolver),
            forall|j: int|
                0 <= j < children@.len() ==> (#[trigger] children@[j] matches Child::Node(child)
                    ==> node_height(child) < bound),
            ok ==> run::<S>(Some(start), forest_leaves(children@.take(i as int), *resolver, bound))
                == Some(state@),
            !ok ==> run::<S>(Some(start), forest_leaves(children@.take(i as int), *resolver, bound))
                is None,
        decreases children.len() - i,
    {
        let ghost done = forest_leaves(children@.take(i as int), *resolver, bound);
        let ghost next = child_leaves(children@[i as int], *resolver, bound);
        proof {
            assert(children@.take(i + 1).drop_last() =~= children@.take(i as int));
            assert(children@.take(i + 1).last() == children@[i as int]);
            assert(forest_leaves(children@.take(i + 1), *resolver, bound) == done + next);
            run_concat::<S>(Some(start), done, next);
        }
        if ok {
            let ghost before = state@;
            match &children[i] {
                Child::Token { kind, text } => {
                    let shown: &str = match text {
                        Some(t) => t.as_str(),
                        None => "",
                    };
                    proof {
                        reveal_strlit("");
                        assert(""@ =~= Seq::<char>::empty());
                        run_one::<S>(before, leaf_of(*kind, *text));
                    }
                    ok = state.apply::<S>(*kind, shown);
                },
                Child::Node(child) => {
                    ok = walk::<S>(child, resolver, state);
                },
            }
        } else {
            proof {
                run_stays_failed::<S>(next);
            }
        }
        i += 1;
    }
    assert(children@.take(i as int) =~= children@);
    ok
}

/// Reconstructs the text of a tree where its leaves stand for one, and says
/// so where they do not: a kind that does not decode, or a dedent with no
/// indent open.
pub fn try_extract_text<S: TokenKind>(node: &GreenNode, resolver: &TokenInterner) -> (out: Option<
    String,
>)
    ensures
        out is Some <==> reconstruct::<S>(tree_leaves(*node, *resolver)) is Some,
        out is Some <==> all_decodable::<S>(tree_leaves(*node, *resolver)) && balanced(
            tree_leaves(*node, *resolver),
        ),
        out matches Some(text) ==> Some(text@) == reconstruct::<S>(tree_leaves(*node, *resolver)),
{
    proof {
        defined_iff_balanced::<S>(tree_leaves(*node, *resolver));
    }
    let mut state = TextState::new();
    if walk::<S>(node, resolver, &mut state) {
        Some(state.into_text())
    } else {
        None
    }
}

/// Calls `NodeCache::interner`. The contract claims that the result is the
/// interner that the cache holds.
#[verifier::external_body]
fn cache_interner<'a>(cache: &'a NodeCache<'static, TokenInterner>) -> (resolver: &'a TokenInterner)
    ensures
        cache_holds(*cache, *resolver),
{
    cache.interner()
}

/// Reconstructs the text of a tree with the interner of the cache that was
/// handed out with it, where its leaves stand for a text, and says so where
/// they do not.
pub fn try_extract_text_with<S: TokenKind>(
    node: &GreenNode,
    cache: &NodeCache<'static, TokenInterner>,
) -> (out: Option<String>)
    ensures
        exists|resolver: TokenInterner|
            {
                &&& #[trigger] cache_holds(*cache, resolver)
                &&& out is Some <==> reconstruct::<S>(tree_leaves(*node, resolver)) is Some
                &&& out matches Some(text) ==> Some(text@) == reconstruct::<S>(
                    tree_leaves(*node, resolver),
                )
            },
{
    let resolver = cache_interner(cache);
    try_extract_text::<S>(node, resolver)
}

/// Reconstructs the text of a tree: every ordinary token's text in document
/// order, each line's first token preceded by the indentation that is open.
pub fn extract_text<S: TokenKind>(node: &GreenNode, resolver: &TokenInterner) -> (out: String)
    requires
        reconstruct::<S>(tree_leaves(*node, *resolver)) is Some,
    ensures
        Some(out@) == reconstruct::<S>(tree_leaves(*node, *resolver)),
{
    let mut state = TextState::new();
    let ok = walk::<S>(node, resolver, &mut state);
    assert(ok);
    state.into_text()
}

} // verus!
