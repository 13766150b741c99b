pub mod laws;
pub mod layout;
pub mod render;
pub mod rows;
pub mod tree;

use vstd::prelude::*;
use crate::layout::{assign_layout, fits, placed};
use crate::render::{render, render_rows};
use crate::rows::{build_rows, rows_of};
use crate::tree::{Graph, Tree};

verus! {

/// The rendered text of the graph whose walk is `t`, with `spacing` extra
/// columns between sibling branches: exactly what `draw_dag` returns.
pub open spec fn drawn(t: Tree, spacing: nat) -> Seq<char> {
    render(rows_of(placed(t, spacing)))
}

/// Renders the graph reachable from `node` as a block of text: one label
/// line per depth, and between adjacent rows a connector line whose
/// glyphs are reconstructed from column geometry alone.  The walk is
/// depth-first with an explicit work list, so sibling subtrees appear in
/// reverse successor order and depth is bounded only by memory.
pub fn draw_dag<T: Graph>(node: T, width_spacing: usize) -> (out: String)
    requires
        fits(node.tree(), width_spacing as nat),
    ensures
        out@ == drawn(node.tree(), width_spacing as nat),
{
    let entries = assign_layout(node, width_spacing);
    let grid = build_rows(&entries);
    render_rows(&grid)
}

} // verus!
