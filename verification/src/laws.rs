use vstd::prelude::*;
use crate::drawn;
use crate::layout::{PlacedV, placed, placed_rest, lemma_placed_rest_shape};
use crate::render::{blanks, branch_run, connector, dashes, gap, hi_of, sat_sub, span};
use crate::rows::{CellV, rows_of};
use crate::tree::{
    Step,
    Tree,
    all_leaves_at,
    height,
    height_list,
    nat_max,
    visit,
    visit_list,
};

verus! {

/// Rendering is a function of the graph's shape and the spacing alone:
/// any two renders of the same graph with the same spacing are the same
/// text, however often they are run.
pub proof fn lemma_render_deterministic(t: Tree, spacing: nat, a: Seq<char>, b: Seq<char>)
    requires
        a == drawn(t, spacing),
        b == drawn(t, spacing),
    ensures
        a == b,
{
}

/// How each column follows the one placed before it: advanced by
/// `spacing + width + 1` when the walk did not go strictly deeper, reused
/// unchanged when it did.
pub proof fn lemma_placed_step(vs: Seq<Step>, counter: nat, prev: Option<nat>, spacing: nat)
    ensures
        forall|i: int|
            1 <= i < vs.len() && vs[i].y <= vs[i - 1].y ==> (#[trigger] placed_rest(
                vs,
                counter,
                prev,
                spacing,
            )[i]).x == placed_rest(vs, counter, prev, spacing)[i - 1].x + spacing + vs[i].label.len()
                + 1,
        forall|i: int|
            1 <= i < vs.len() && vs[i].y > vs[i - 1].y ==> (#[trigger] placed_rest(
                vs,
                counter,
                prev,
                spacing,
            )[i]).x == placed_rest(vs, counter, prev, spacing)[i - 1].x,
    decreases vs.len(),
{
    if vs.len() > 0 {
        let s = vs[0];
        let c = match prev {
            Option::Some(p) => if s.y <= p {
                (counter + spacing + s.label.len() + 1) as nat
            } else {
                counter
            },
            Option::None => counter,
        };
        let p = placed_rest(vs, counter, prev, spacing);
        let rest = placed_rest(vs.drop_first(), c, Option::Some(s.y), spacing);
        lemma_placed_step(vs.drop_first(), c, Option::Some(s.y), spacing);
        lemma_placed_rest_shape(vs.drop_first(), c, Option::Some(s.y), spacing);
        assert forall|i: int|
            1 <= i < vs.len() && vs[i].y <= vs[i - 1].y implies (#[trigger] p[i]).x == p[i - 1].x
            + spacing + vs[i].label.len() + 1 by {
            assert(p[i] == rest[i - 1]);
            assert(vs.drop_first()[i - 1] == vs[i]);
            if i == 1 {
                assert(rest[0].x == (c + spacing + vs[1].label.len() + 1) as nat);
            } else {
                assert(p[i - 1] == rest[i - 2]);
                assert(vs.drop_first()[i - 2] == vs[i - 1]);
            }
        }
        assert forall|i: int|
            1 <= i < vs.len() && vs[i].y > vs[i - 1].y implies (#[trigger] p[i]).x == p[i
            - 1].x by {
            assert(p[i] == rest[i - 1]);
            assert(vs.drop_first()[i - 1] == vs[i]);
            if i == 1 {
                assert(rest[0].x == c);
            } else {
                assert(p[i - 1] == rest[i - 2]);
                assert(vs.drop_first()[i - 2] == vs[i - 1]);
            }
        }
    }
}

/// Columns never move left along the walk.
pub proof fn lemma_columns_monotone(
    vs: Seq<Step>,
    counter: nat,
    prev: Option<nat>,
    spacing: nat,
    i: int,
    j: int,
)
    requires
        0 <= i <= j < vs.len(),
    ensures
        placed_rest(vs, counter, prev, spacing)[i].x <= placed_rest(vs, counter, prev, spacing)[j].x,
    decreases j - i,
{
    if i < j {
        lemma_columns_monotone(vs, counter, prev, spacing, i, j - 1);
        lemma_placed_step(vs, counter, prev, spacing);
        if vs[j].y <= vs[j - 1].y {
            assert(placed_rest(vs, counter, prev, spacing)[j].x >= placed_rest(
                vs,
                counter,
                prev,
                spacing,
            )[j - 1].x);
        }
    }
}

/// A later node that lands in the same row, or higher, lies strictly
/// further right: the walk must have stepped back up in between, and that
/// step advanced the counter.
pub proof fn lemma_same_row_strict(
    vs: Seq<Step>,
    counter: nat,
    prev: Option<nat>,
    spacing: nat,
    i: int,
    j: int,
)
    requires
        0 <= i < j < vs.len(),
        vs[j].y <= vs[i].y,
    ensures
        placed_rest(vs, counter, prev, spacing)[i].x < placed_rest(vs, counter, prev, spacing)[j].x,
    decreases j - i,
{
    lemma_placed_step(vs, counter, prev, spacing);
    if vs[j].y <= vs[j - 1].y {
        lemma_columns_monotone(vs, counter, prev, spacing, i, j - 1);
    } else {
        lemma_same_row_strict(vs, counter, prev, spacing, i, j - 1);
    }
}

/// The walk never assigns one coordinate twice: two nodes in the same row
/// got their columns in walk order, strictly increasing.
pub proof fn lemma_coordinates_unique(t: Tree, spacing: nat)
    ensures
        forall|i: int, j: int|
            0 <= i < j < placed(t, spacing).len() && (#[trigger] placed(t, spacing)[i]).y == (
            #[trigger] placed(t, spacing)[j]).y ==> placed(t, spacing)[i].x < placed(
                t,
                spacing,
            )[j].x,
{
    lemma_placed_rest_shape(visit(t, 0), 0, Option::None, spacing);
    assert forall|i: int, j: int|
        0 <= i < j < placed(t, spacing).len() && (#[trigger] placed(t, spacing)[i]).y == (
        #[trigger] placed(t, spacing)[j]).y implies placed(t, spacing)[i].x < placed(
        t,
        spacing,
    )[j].x by {
        lemma_same_row_strict(visit(t, 0), 0, Option::None, spacing, i, j);
    }
}

/// The walk of `t` starts with `t` itself, and never climbs above `t`'s
/// own row.
pub proof fn lemma_visit_depths(t: Tree, d: nat)
    ensures
        visit(t, d).len() >= 1,
        visit(t, d)[0] == (Step { y: d, label: t.label }),
        forall|i: int| 0 <= i < visit(t, d).len() ==> (#[trigger] visit(t, d)[i]).y >= d,
    decreases t, 0int,
{
    lemma_visit_list_depths(t.kids, t.kids.len() as int, (d + 1) as nat);
    assert forall|i: int| 0 <= i < visit(t, d).len() implies (#[trigger] visit(t, d)[i]).y
        >= d by {
        if i > 0 {
            assert(visit(t, d)[i] == visit_list(t.kids, t.kids.len() as int, (d + 1) as nat)[i
                - 1]);
        }
    }
}

/// No visit in a list of subtrees rooted at row `d` climbs above row `d`.
pub proof fn lemma_visit_list_depths(ks: Seq<Tree>, n: int, d: nat)
    ensures
        forall|i: int|
            0 <= i < visit_list(ks, n, d).len() ==> (#[trigger] visit_list(ks, n, d)[i]).y >= d,
    decreases ks, n,
{
    if 1 <= n <= ks.len() {
        lemma_visit_depths(ks[n - 1], d);
        lemma_visit_list_depths(ks, n - 1, d);
        assert forall|i: int|
            0 <= i < visit_list(ks, n, d).len() implies (#[trigger] visit_list(ks, n, d)[i]).y
            >= d by {
            let head = visit(ks[n - 1], d);
            if i < head.len() {
                assert(visit_list(ks, n, d)[i] == head[i]);
            } else {
                assert(visit_list(ks, n, d)[i] == visit_list(ks, n - 1, d)[i - head.len()]);
            }
        }
    }
}

/// A node with exactly one successor shares its column with it: the walk
/// descends straight down, and the counter does not advance, so the chain
/// is rendered later as a vertical connector.
pub proof fn lemma_single_child_column(t: Tree, spacing: nat)
    requires
        t.kids.len() == 1,
    ensures
        placed(t, spacing).len() >= 2,
        placed(t, spacing)[1].y == 1,
        placed(t, spacing)[1].label == t.kids[0].label,
        placed(t, spacing)[1].x == placed(t, spacing)[0].x,
{
    let whole = visit(t, 0);
    lemma_visit_depths(t, 0);
    lemma_visit_depths(t.kids[0], 1);
    assert(visit_list(t.kids, 1, 1) == visit(t.kids[0], 1) + visit_list(t.kids, 0, 1));
    assert(visit_list(t.kids, 0, 1) == Seq::<Step>::empty());
    assert(whole[1] == visit_list(t.kids, 1, 1)[0]);
    assert(visit_list(t.kids, 1, 1)[0] == visit(t.kids[0], 1)[0]);
    assert(whole[1] == (Step { y: 1, label: t.kids[0].label }));
    lemma_placed_rest_shape(whole, 0, Option::None, spacing);
    lemma_placed_step(whole, 0, Option::None, spacing);
    assert(whole[1].y > whole[0].y);
}

/// With successor sequence `[a, b]`, the walk renders `b`'s subtree first
/// and strictly left of `a`'s root: the later-listed sibling is the
/// leftmost in the text.
pub proof fn lemma_sibling_reversal(t: Tree, a: Tree, b: Tree, spacing: nat)
    requires
        t.kids == seq![a, b],
    ensures
        placed(t, spacing).len() == 1 + visit(b, 1).len() + visit(a, 1).len(),
        placed(t, spacing)[1].y == 1,
        placed(t, spacing)[1].label == b.label,
        placed(t, spacing)[1 + visit(b, 1).len() as int].y == 1,
        placed(t, spacing)[1 + visit(b, 1).len() as int].label == a.label,
        placed(t, spacing)[1].x < placed(t, spacing)[1 + visit(b, 1).len() as int].x,
{
    let whole = visit(t, 0);
    let vb = visit(b, 1);
    let va = visit(a, 1);
    let k = 1 + vb.len() as int;
    lemma_visit_depths(t, 0);
    lemma_visit_depths(a, 1);
    lemma_visit_depths(b, 1);
    assert(t.kids[1] == b);
    assert(t.kids[0] == a);
    assert(visit_list(t.kids, 2, 1) == vb + visit_list(t.kids, 1, 1));
    assert(visit_list(t.kids, 1, 1) == va + visit_list(t.kids, 0, 1));
    assert(visit_list(t.kids, 0, 1) == Seq::<Step>::empty());
    assert(va + Seq::<Step>::empty() =~= va);
    assert(whole == seq![Step { y: 0, label: t.label }] + (vb + va));
    assert(whole.len() == 1 + vb.len() + va.len());
    assert(whole[1] == (vb + va)[0]);
    assert((vb + va)[0] == vb[0]);
    assert(whole[k] == (vb + va)[k - 1]);
    assert((vb + va)[k - 1] == va[0]);
    lemma_placed_rest_shape(whole, 0, Option::None, spacing);
    lemma_placed_step(whole, 0, Option::None, spacing);
    // the step from the last node of b's subtree back up to a advances
    assert(whole[k - 1] == (vb + va)[k - 2]);
    assert((vb + va)[k - 2] == vb[k - 2]);
    assert(whole[k - 1].y >= 1);
    assert(whole[k].y <= whole[k - 1].y);
    assert(placed(t, spacing)[k].x == placed(t, spacing)[k - 1].x + spacing
        + whole[k].label.len() + 1);
    lemma_columns_monotone(whole, 0, Option::None, spacing, 1, k - 1);
}

/// How many rows the grid of `es` needs: one past the deepest row used.
pub open spec fn rows_needed(es: Seq<PlacedV>) -> nat
    decreases es.len(),
{
    if es.len() == 0 {
        0
    } else {
        nat_max(rows_needed(es.drop_last()), es.last().y + 1)
    }
}

/// One past the deepest row any of the visits `vs` lands in.
pub open spec fn depth_span(vs: Seq<Step>) -> nat
    decreases vs.len(),
{
    if vs.len() == 0 {
        0
    } else {
        nat_max(depth_span(vs.drop_last()), vs.last().y + 1)
    }
}

pub proof fn lemma_rows_of_len(es: Seq<PlacedV>)
    ensures
        rows_of(es).len() == rows_needed(es),
    decreases es.len(),
{
    if es.len() > 0 {
        lemma_rows_of_len(es.drop_last());
    }
}

pub proof fn lemma_depth_span_add(a: Seq<Step>, b: Seq<Step>)
    ensures
        depth_span(a + b) == nat_max(depth_span(a), depth_span(b)),
    decreases b.len(),
{
    if b.len() == 0 {
        assert(a + b =~= a);
    } else {
        assert((a + b).drop_last() =~= a + b.drop_last());
        assert((a + b).last() == b.last());
        lemma_depth_span_add(a, b.drop_last());
    }
}

pub proof fn lemma_rows_needed_pointwise(p: Seq<PlacedV>, vs: Seq<Step>)
    requires
        p.len() == vs.len(),
        forall|i: int| 0 <= i < p.len() ==> (#[trigger] p[i]).y == vs[i].y,
    ensures
        rows_needed(p) == depth_span(vs),
    decreases p.len(),
{
    if p.len() > 0 {
        lemma_rows_needed_pointwise(p.drop_last(), vs.drop_last());
        assert(p.last().y == vs.last().y);
    }
}

/// The walk of a subtree rooted at row `d` reaches down exactly the
/// subtree's height.
pub proof fn lemma_visit_height(t: Tree, d: nat)
    ensures
        depth_span(visit(t, d)) == d + height(t),
    decreases t, 0int,
{
    let ks = t.kids;
    let n = ks.len() as int;
    lemma_visit_list_height(ks, n, (d + 1) as nat);
    assert(seq![Step { y: d, label: t.label }].drop_last() =~= Seq::<Step>::empty());
    assert(seq![Step { y: d, label: t.label }].last() == (Step { y: d, label: t.label }));
    assert(depth_span(Seq::<Step>::empty()) == 0);
    assert(depth_span(seq![Step { y: d, label: t.label }]) == d + 1);
    lemma_depth_span_add(seq![Step { y: d, label: t.label }], visit_list(ks, n, (d + 1) as nat));
}

pub proof fn lemma_visit_list_height(ks: Seq<Tree>, n: int, d: nat)
    ensures
        (n <= 0 || n > ks.len()) ==> depth_span(visit_list(ks, n, d)) == 0,
        1 <= n <= ks.len() ==> depth_span(visit_list(ks, n, d)) == d + height_list(ks, n),
    decreases ks, n,
{
    if 1 <= n <= ks.len() {
        lemma_visit_height(ks[n - 1], d);
        lemma_visit_list_height(ks, n - 1, d);
        lemma_depth_span_add(visit(ks[n - 1], d), visit_list(ks, n - 1, d));
    }
}

/// The grid has one label row per level of the graph: the number of rows
/// is the greatest depth of any reachable node, plus one.
pub proof fn lemma_row_count(t: Tree, spacing: nat)
    ensures
        rows_of(placed(t, spacing)).len() == height(t),
{
    lemma_rows_of_len(placed(t, spacing));
    lemma_placed_rest_shape(visit(t, 0), 0, Option::None, spacing);
    lemma_rows_needed_pointwise(placed(t, spacing), visit(t, 0));
    lemma_visit_height(t, 0);
}

pub proof fn lemma_leaves_height(t: Tree, r: nat)
    requires
        all_leaves_at(t, r),
    ensures
        height(t) <= r + 1,
    decreases r, 1int, 0int,
{
    if r == 0 {
        assert(height_list(t.kids, 0) == 0);
    } else {
        lemma_leaves_height_list(t.kids, t.kids.len() as int, r);
    }
}

pub proof fn lemma_leaves_height_list(ks: Seq<Tree>, n: int, r: nat)
    requires
        r >= 1,
        n <= ks.len(),
        forall|i: int| 0 <= i < ks.len() ==> all_leaves_at(#[trigger] ks[i], (r - 1) as nat),
    ensures
        height_list(ks, n) <= r,
    decreases r, 0int, n,
{
    if 1 <= n <= ks.len() {
        lemma_leaves_height(ks[n - 1], (r - 1) as nat);
        lemma_leaves_height_list(ks, n - 1, r);
    }
}

/// A row of leaves is the last row of the picture: when every node `r`
/// levels below the root is a leaf, nothing lies deeper, so no connector
/// line is drawn beneath row `r`.
pub proof fn lemma_leaf_row_is_last(t: Tree, spacing: nat, r: nat)
    requires
        all_leaves_at(t, r),
    ensures
        rows_of(placed(t, spacing)).len() <= r + 1,
{
    lemma_row_count(t, spacing);
    lemma_leaves_height(t, r);
}

/// An upper cell whose span holds exactly one descendant is drawn as the
/// single vertical glyph, at the upper cell's own column.
pub proof fn lemma_single_descendant_glyph(upper: Seq<CellV>, lower: Seq<CellV>, last: nat)
    requires
        upper.len() > 0,
        span(lower, upper[0].x, hi_of(upper)).len() == 1,
    ensures
        connector(upper, lower, last) == blanks(sat_sub(upper[0].x, last)) + seq!['│'] + connector(
            upper.drop_first(),
            lower,
            span(lower, upper[0].x, hi_of(upper))[0] + 1,
        ),
{
}

/// The four connector glyph shapes; fill and padding are not among them.
pub open spec fn is_branch_glyph(c: char) -> bool {
    c == '│' || c == '├' || c == '┬' || c == '┐'
}

/// How many branch glyphs a piece of text holds.
pub open spec fn glyph_count(s: Seq<char>) -> nat
    decreases s.len(),
{
    if s.len() == 0 {
        0
    } else {
        glyph_count(s.drop_last()) + (if is_branch_glyph(s.last()) {
            1nat
        } else {
            0nat
        })
    }
}

/// How many lower-row cells the upper row's spans claim, over all upper
/// cells.
pub open spec fn covered(upper: Seq<CellV>, lower: Seq<CellV>) -> nat
    decreases upper.len(),
{
    if upper.len() == 0 {
        0
    } else {
        span(lower, upper[0].x, hi_of(upper)).len() + covered(upper.drop_first(), lower)
    }
}

pub proof fn lemma_glyph_count_add(a: Seq<char>, b: Seq<char>)
    ensures
        glyph_count(a + b) == glyph_count(a) + glyph_count(b),
    decreases b.len(),
{
    if b.len() == 0 {
        assert(a + b =~= a);
    } else {
        assert((a + b).drop_last() =~= a + b.drop_last());
        assert((a + b).last() == b.last());
        lemma_glyph_count_add(a, b.drop_last());
    }
}

pub proof fn lemma_glyph_count_blanks(n: nat)
    ensures
        glyph_count(blanks(n)) == 0,
    decreases n,
{
    if n > 0 {
        assert(blanks(n).drop_last() =~= blanks((n - 1) as nat));
        lemma_glyph_count_blanks((n - 1) as nat);
    }
}

pub proof fn lemma_glyph_count_dashes(n: nat)
    ensures
        glyph_count(dashes(n)) == 0,
    decreases n,
{
    if n > 0 {
        assert(dashes(n).drop_last() =~= dashes((n - 1) as nat));
        lemma_glyph_count_dashes((n - 1) as nat);
    }
}

pub proof fn lemma_glyph_count_one(c: char)
    ensures
        glyph_count(seq![c]) == (if is_branch_glyph(c) {
            1nat
        } else {
            0nat
        }),
{
    assert(seq![c].drop_last() =~= Seq::<char>::empty());
    assert(seq![c].last() == c);
    assert(glyph_count(Seq::<char>::empty()) == 0);
}

/// A spread over `k` descendants draws one branch glyph per descendant
/// after the first; fill glyphs add nothing.
pub proof fn lemma_branch_run_count(xs: Seq<nat>, j: int)
    requires
        1 <= j <= xs.len(),
    ensures
        glyph_count(branch_run(xs, j)) == xs.len() - j,
    decreases xs.len() - j,
{
    if j < xs.len() {
        let g = if j == xs.len() - 1 {
            '┐'
        } else {
            '┬'
        };
        lemma_glyph_count_dashes(gap(xs[j], xs[j - 1]));
        lemma_glyph_count_one(g);
        lemma_glyph_count_add(dashes(gap(xs[j], xs[j - 1])), seq![g]);
        lemma_glyph_count_add(dashes(gap(xs[j], xs[j - 1])) + seq![g], branch_run(xs, j + 1));
        lemma_branch_run_count(xs, j + 1);
    }
}

/// Interval correctness of the connector: every lower-row cell that some
/// upper cell's span claims is answered by exactly one branch glyph — a
/// vertical for a single descendant, a left, through or terminal branch
/// within a spread — and no glyph answers anything else.
pub proof fn lemma_connector_glyph_count(upper: Seq<CellV>, lower: Seq<CellV>, last: nat)
    ensures
        glyph_count(connector(upper, lower, last)) == covered(upper, lower),
    decreases upper.len(),
{
    if upper.len() > 0 {
        let below = span(lower, upper[0].x, hi_of(upper));
        let pad = blanks(sat_sub(upper[0].x, last));
        lemma_glyph_count_blanks(sat_sub(upper[0].x, last));
        if below.len() == 0 {
            lemma_connector_glyph_count(upper.drop_first(), lower, last);
        } else if below.len() == 1 {
            lemma_connector_glyph_count(upper.drop_first(), lower, below[0] + 1);
            lemma_glyph_count_one('│');
            lemma_glyph_count_add(pad, seq!['│']);
            lemma_glyph_count_add(pad + seq!['│'], connector(
                upper.drop_first(),
                lower,
                below[0] + 1,
            ));
        } else {
            lemma_connector_glyph_count(upper.drop_first(), lower, below.last() + 1);
            lemma_glyph_count_one('├');
            lemma_branch_run_count(below, 1);
            lemma_glyph_count_add(pad, seq!['├']);
            lemma_glyph_count_add(pad + seq!['├'], branch_run(below, 1));
            lemma_glyph_count_add((pad + seq!['├']) + branch_run(below, 1), connector(
                upper.drop_first(),
                lower,
                below.last() + 1,
            ));
            assert(pad + seq!['├'] + branch_run(below, 1) + connector(
                upper.drop_first(),
                lower,
                below.last() + 1,
            ) =~= ((pad + seq!['├']) + branch_run(below, 1)) + connector(
                upper.drop_first(),
                lower,
                below.last() + 1,
            ));
        }
    }
}

} // verus!
