use vstd::prelude::*;
use vstd::string::StrSliceExecFns;
use crate::tree::{Graph, Tree, Step, visit, visit_list};

verus! {

/// One laid-out node: its column `x`, its row `y`, and its label.
pub struct Placed {
    pub x: usize,
    pub y: usize,
    pub label: String,
}

/// The view of a laid-out node.
pub struct PlacedV {
    pub x: nat,
    pub y: nat,
    pub label: Seq<char>,
}

impl View for Placed {
    type V = PlacedV;

    open spec fn view(&self) -> PlacedV {
        PlacedV { x: self.x as nat, y: self.y as nat, label: self.label@ }
    }
}

pub open spec fn placed_view(s: Seq<Placed>) -> Seq<PlacedV> {
    Seq::new(s.len(), |i: int| s[i]@)
}

/// The column rule applied to the visits `vs`: `counter` is the running
/// column counter and `prev` the row of the node visited just before, if
/// any.  A node whose row is not deeper than the previous one first
/// advances the counter by `spacing + width + 1`, where width is its own
/// label's length; a strictly deeper node reuses the counter unchanged.
pub open spec fn placed_rest(
    vs: Seq<Step>,
    counter: nat,
    prev: Option<nat>,
    spacing: nat,
) -> Seq<PlacedV>
    decreases vs.len(),
{
    if vs.len() == 0 {
        Seq::empty()
    } else {
        let s = vs[0];
        let c = match prev {
            Option::Some(p) => if s.y <= p {
                (counter + spacing + s.label.len() + 1) as nat
            } else {
                counter
            },
            Option::None => counter,
        };
        seq![PlacedV { x: c, y: s.y, label: s.label }] + placed_rest(
            vs.drop_first(),
            c,
            Option::Some(s.y),
            spacing,
        )
    }
}

/// Where each node of the walk of `t` lands: the nodes in visit order,
/// with columns given by the column rule starting from zero.
pub open spec fn placed(t: Tree, spacing: nat) -> Seq<PlacedV> {
    placed_rest(visit(t, 0), 0, Option::None, spacing)
}

/// Every coordinate of the layout fits the machine word, which is what the
/// walk's `usize` arithmetic needs.
pub open spec fn fits(t: Tree, spacing: nat) -> bool {
    forall|i: int|
        0 <= i < placed(t, spacing).len() ==> (#[trigger] placed(t, spacing)[i]).x <= usize::MAX
            && placed(t, spacing)[i].y <= usize::MAX
}

/// Row and label of each laid-out node come straight from the visit
/// order; only the column is the counter's doing.
pub proof fn lemma_placed_rest_shape(vs: Seq<Step>, counter: nat, prev: Option<nat>, spacing: nat)
    ensures
        placed_rest(vs, counter, prev, spacing).len() == vs.len(),
        forall|i: int|
            0 <= i < vs.len() ==> (#[trigger] placed_rest(vs, counter, prev, spacing)[i]).y
                == vs[i].y && placed_rest(vs, counter, prev, spacing)[i].label == vs[i].label,
    decreases vs.len(),
{
    if vs.len() > 0 {
        let s = vs[0];
        let c = match prev {
            Option::Some(p) => if s.y <= p {
                (counter + spacing + s.label.len() + 1) as nat
            } else {
                counter
            },
            Option::None => counter,
        };
        let rest = placed_rest(vs.drop_first(), c, Option::Some(s.y), spacing);
        lemma_placed_rest_shape(vs.drop_first(), c, Option::Some(s.y), spacing);
        assert forall|i: int|
            0 <= i < vs.len() implies (#[trigger] placed_rest(vs, counter, prev, spacing)[i]).y
            == vs[i].y && placed_rest(vs, counter, prev, spacing)[i].label == vs[i].label by {
            if i > 0 {
                assert(placed_rest(vs, counter, prev, spacing)[i] == rest[i - 1]);
                assert(vs.drop_first()[i - 1] == vs[i]);
            }
        }
    }
}

pub open spec fn opt_v(o: Option<usize>) -> Option<nat> {
    match o {
        Option::Some(p) => Option::Some(p as nat),
        Option::None => Option::None,
    }
}

/// The visits still owed to the work list `s`: the walks of its entries,
/// from the top of the stack down.
pub open spec fn stack_visits<T: Graph>(s: Seq<(usize, T)>) -> Seq<Step>
    decreases s.len(),
{
    if s.len() == 0 {
        Seq::empty()
    } else {
        visit(s.last().1.tree(), s.last().0 as nat) + stack_visits(s.drop_last())
    }
}

/// Walks the graph below `root` depth-first with an explicit work list and
/// assigns every visited node its coordinate, in visit order.
pub fn assign_layout<T: Graph>(root: T, spacing: usize) -> (entries: Vec<Placed>)
    requires
        fits(root.tree(), spacing as nat),
    ensures
        placed_view(entries@) == placed(root.tree(), spacing as nat),
{
    let ghost t0 = root.tree();
    let ghost sp = spacing as nat;
    let ghost whole = visit(t0, 0);
    let ghost pl = placed(t0, sp);

    let mut entries: Vec<Placed> = Vec::new();
    let mut stack: Vec<(usize, T)> = Vec::new();
    let mut column: usize = 0;
    let mut prev_depth: Option<usize> = None;
    stack.push((0, root));

    proof {
        lemma_placed_rest_shape(whole, 0, Option::None, sp);
        assert(stack@.len() == 1);
        assert(stack@.last() == (0usize, root));
        assert(stack@.drop_last() =~= Seq::<(usize, T)>::empty());
        assert(stack_visits(stack@.drop_last()) == Seq::<Step>::empty());
        assert(stack_visits(stack@) == visit(t0, 0) + Seq::<Step>::empty());
        assert(visit(t0, 0) + Seq::<Step>::empty() =~= whole);
        assert(whole.skip(0) =~= whole);
        assert(pl.skip(0) =~= pl);
        assert(placed_view(entries@) =~= pl.take(0));
    }

    while stack.len() > 0
        invariant
            sp == spacing as nat,
            fits(t0, sp),
            whole == visit(t0, 0),
            pl == placed(t0, sp),
            pl.len() == whole.len(),
            entries@.len() <= whole.len(),
            placed_view(entries@) == pl.take(entries@.len() as int),
            stack_visits(stack@) == whole.skip(entries@.len() as int),
            pl.skip(entries@.len() as int) == placed_rest(
                whole.skip(entries@.len() as int),
                column as nat,
                opt_v(prev_depth),
                sp,
            ),
        decreases whole.len() - entries@.len(),
    {
        let ghost k = entries@.len() as int;
        let ghost st0 = stack@;
        let ghost c0 = column as nat;
        let ghost pg0 = opt_v(prev_depth);
        let popped = stack.pop();
        let (depth, node) = popped.unwrap();
        let ghost nt = node.tree();
        let ghost d = depth as nat;

        proof {
            lemma_placed_rest_shape(whole, 0, Option::None, sp);
            assert(st0.last() == (depth, node));
            assert(stack@ =~= st0.drop_last());
            // the popped pair owes exactly the head of the remaining visits
            assert(stack_visits(st0) == visit(nt, d) + stack_visits(stack@));
            assert(visit(nt, d)[0] == Step { y: d, label: nt.label });
            assert(whole.skip(k)[0] == visit(nt, d)[0]);
            assert(whole[k] == whole.skip(k)[0]);
            assert(k < whole.len());
            assert(placed(t0, sp)[k].x <= usize::MAX);
        }

        let lab = node.label();
        let width = lab.as_str().unicode_len();
        let ghost head_x = placed_rest(whole.skip(k), c0, pg0, sp)[0].x;
        proof {
            assert(pl[k] == pl.skip(k)[0]);
            assert(pl[k].x == head_x);
        }
        match prev_depth {
            Option::Some(pd) => {
                if depth <= pd {
                    proof {
                        assert(head_x == column as nat + sp + nt.label.len() + 1);
                    }
                    column = column + spacing + width + 1;
                }
            },
            Option::None => {},
        }
        proof {
            assert(column as nat == pl[k].x);
        }
        let ghost lab_v = lab@;
        entries.push(Placed { x: column, y: depth, label: lab });
        prev_depth = Some(depth);
        proof {
            assert(entries@.last()@ == pl[k]);
            assert(placed_view(entries@) =~= pl.take(k + 1));
        }

        let mut kids = node.next();
        let ghost ks = nt.kids;
        let ghost kv = kids@;
        let ghost base = stack@;
        let ghost mut j: int = 0;
        proof {
            assert(visit(nt, d) == seq![Step { y: d, label: nt.label }] + visit_list(
                ks,
                ks.len() as int,
                (d + 1) as nat,
            ));
            if ks.len() > 0 {
                // the first child visit pins row d + 1 inside the walk
                assert(visit_list(ks, ks.len() as int, (d + 1) as nat)[0] == visit(
                    ks[ks.len() - 1],
                    (d + 1) as nat,
                )[0]);
                assert(visit(nt, d)[1] == visit_list(ks, ks.len() as int, (d + 1) as nat)[0]);
                assert(whole[k + 1] == whole.skip(k)[1]);
                assert(whole[k + 1].y == d + 1);
                assert(placed(t0, sp)[k + 1].y <= usize::MAX);
            }
        }
        while kids.len() > 0
            invariant
                0 <= j <= kv.len(),
                kv.len() == ks.len(),
                kids@ == kv.skip(j),
                forall|i: int| 0 <= i < kv.len() ==> (#[trigger] kv[i]).tree() == ks[i],
                kv.len() > 0 ==> depth < usize::MAX,
                d == depth as nat,
                stack_visits(stack@) == visit_list(ks, j, (d + 1) as nat) + stack_visits(base),
            decreases kids@.len(),
        {
            let ghost stp = stack@;
            let c = kids.remove(0);
            stack.push((depth + 1, c));
            proof {
                assert(c == kv[j]);
                assert(kids@ =~= kv.skip(j + 1));
                assert(stack@.last() == ((depth + 1) as usize, c));
                assert(stack@.drop_last() =~= stp);
                assert(stack_visits(stack@) == visit(c.tree(), (d + 1) as nat) + stack_visits(
                    stp,
                ));
                assert(visit_list(ks, j + 1, (d + 1) as nat) == visit(ks[j], (d + 1) as nat)
                    + visit_list(ks, j, (d + 1) as nat));
                assert(stack_visits(stack@) =~= visit_list(ks, j + 1, (d + 1) as nat)
                    + stack_visits(base));
                j = j + 1;
            }
        }

        proof {
            assert(j == ks.len());
            // step the ledger of visits and of placements past this node
            assert(whole.skip(k + 1) =~= whole.skip(k).drop_first());
            assert(visit(nt, d).drop_first() =~= visit_list(ks, ks.len() as int, (d + 1) as nat));
            assert((visit(nt, d) + stack_visits(base)).drop_first() =~= visit(
                nt,
                d,
            ).drop_first() + stack_visits(base));
            assert(stack_visits(stack@) =~= whole.skip(k + 1));
            assert(placed_rest(whole.skip(k), c0, pg0, sp) == seq![
                PlacedV { x: head_x, y: d, label: nt.label },
            ] + placed_rest(whole.skip(k).drop_first(), head_x, Option::Some(d), sp));
            assert(pl.skip(k + 1) =~= pl.skip(k).drop_first());
            assert(pl.skip(k).drop_first() =~= placed_rest(
                whole.skip(k).drop_first(),
                head_x,
                Option::Some(d),
                sp,
            ));
            assert(whole.skip(k).drop_first() == whole.skip(k + 1));
            assert(pl.skip(k + 1) == placed_rest(
                whole.skip(k + 1),
                column as nat,
                opt_v(prev_depth),
                sp,
            ));
        }
    }
    entries
}

} // verus!
