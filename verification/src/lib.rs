//! Indentation-aware concrete syntax trees on top of `cstree`.
//!
//! A caller's token kinds are extended by three structural markers (indent,
//! dedent, newline). A tree built with those markers can be turned back into
//! the exact source text, indentation included.

use vstd::prelude::*;

pub mod green;
pub mod lines;
pub mod syntax;
pub mod text;

pub use crate::green::{extract_text, try_extract_text, try_extract_text_with, Builder};
pub use crate::syntax::{Syntax2D, TokenKind};

use crate::green::tree_leaves;
use crate::text::reconstruct;
use cstree::green::GreenNode;
use cstree::interning::TokenInterner;

verus! {

/// Reconstructs the text of a tree as a `String`: the same text as
/// `extract_text`.
pub fn extract_text_to_string<S: TokenKind>(node: &GreenNode, resolver: &TokenInterner) -> (out:
    String)
    requires
        reconstruct::<S>(tree_leaves(*node, *resolver)) is Some,
    ensures
        Some(out@) == reconstruct::<S>(tree_leaves(*node, *resolver)),
{
    extract_text::<S>(node, resolver)
}

} // verus!
