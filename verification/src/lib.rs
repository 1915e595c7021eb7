pub mod icon;
pub mod matcher;
pub mod render;
pub mod splice;
pub mod tree;

use crate::matcher::matcher_lines;
use crate::render::{render, spec_render};
use crate::tree::{build_entries, spec_build, FsNode};
use ignore::gitignore::Gitignore;
use vstd::prelude::*;

verus! {

/// Renders the filtered directory tree of the snapshot `root`: the entries
/// the depth-bounded, ignore-aware traversal emits, serialized one per line.
/// The text is a function of the snapshot, the rule lines and the limit
/// alone, so a second run over the same snapshot yields identical bytes.
pub fn generate_tree(root: &FsNode, g: &Gitignore, limit: usize) -> (r: String)
    ensures
        r@ == spec_render(
            spec_build(*root, Seq::<Seq<char>>::empty(), limit as int, matcher_lines(*g)),
        ),
{
    let entries = build_entries(root, g, limit);
    render(&entries)
}

} // verus!
