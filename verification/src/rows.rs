use vstd::prelude::*;
use crate::layout::{Placed, PlacedV, placed_view};

verus! {

/// One cell of a grid row: a column and the label that starts there.
pub struct Cell {
    pub x: usize,
    pub label: String,
}

/// The view of a cell.
pub struct CellV {
    pub x: nat,
    pub label: Seq<char>,
}

impl View for Cell {
    type V = CellV;

    open spec fn view(&self) -> CellV {
        CellV { x: self.x as nat, label: self.label@ }
    }
}

pub open spec fn row_view(r: Seq<Cell>) -> Seq<CellV> {
    Seq::new(r.len(), |i: int| r[i]@)
}

pub open spec fn rows_view(rows: Seq<Vec<Cell>>) -> Seq<Seq<CellV>> {
    Seq::new(rows.len(), |i: int| row_view(rows[i]@))
}

/// `rows`, grown with empty rows until it holds at least `n` of them.
pub open spec fn pad_to(rows: Seq<Seq<CellV>>, n: nat) -> Seq<Seq<CellV>> {
    if rows.len() >= n {
        rows
    } else {
        rows + Seq::new((n - rows.len()) as nat, |i: int| Seq::<CellV>::empty())
    }
}

/// One laid-out node dropped into the grid: its row gets the cell
/// appended, after the grid has grown far enough to have that row.
pub open spec fn add_cell(rows: Seq<Seq<CellV>>, e: PlacedV) -> Seq<Seq<CellV>> {
    let grown = pad_to(rows, e.y + 1);
    grown.update(e.y as int, grown[e.y as int].push(CellV { x: e.x, label: e.label }))
}

/// The grid of the laid-out nodes `es`: one row per occupied depth, and
/// within a row the cells in the order the walk placed them.
pub open spec fn rows_of(es: Seq<PlacedV>) -> Seq<Seq<CellV>>
    decreases es.len(),
{
    if es.len() == 0 {
        Seq::empty()
    } else {
        add_cell(rows_of(es.drop_last()), es.last())
    }
}

/// Buckets the laid-out nodes by row.
pub fn build_rows(entries: &Vec<Placed>) -> (rows: Vec<Vec<Cell>>)
    ensures
        rows_view(rows@) == rows_of(placed_view(entries@)),
{
    let ghost es = placed_view(entries@);
    let mut rows: Vec<Vec<Cell>> = Vec::new();
    let mut i: usize = 0;
    proof {
        assert(es.take(0) =~= Seq::<PlacedV>::empty());
        assert(rows_view(rows@) =~= rows_of(es.take(0)));
    }
    while i < entries.len()
        invariant
            es == placed_view(entries@),
            i <= entries@.len(),
            rows_view(rows@) == rows_of(es.take(i as int)),
        decreases entries@.len() - i,
    {
        let e = &entries[i];
        proof {
            assert(e@ == es[i as int]);
        }
        let ghost r0 = rows_view(rows@);
        while rows.len() <= e.y
            invariant
                e@ == es[i as int],
                r0.len() <= rows@.len(),
                rows@.len() == r0.len() || rows@.len() <= e.y + 1,
                rows_view(rows@) == pad_to(r0, rows@.len() as nat),
            decreases e.y + 1 - rows@.len(),
        {
            let ghost before = rows_view(rows@);
            rows.push(Vec::new());
            proof {
                assert(row_view(Seq::<Cell>::empty()) =~= Seq::<CellV>::empty());
                assert(rows_view(rows@) =~= before + seq![Seq::<CellV>::empty()]);
                assert(before + seq![Seq::<CellV>::empty()] =~= pad_to(r0, rows@.len() as nat));
            }
        }
        let ghost grown = rows_view(rows@);
        proof {
            assert(grown =~= pad_to(r0, e@.y + 1));
        }
        let y = e.y;
        let cell = Cell { x: e.x, label: e.label.clone() };
        let ghost cv = cell@;
        let ghost vecs = rows@;
        let mut row = rows.remove(y);
        row.push(cell);
        rows.insert(y, row);
        proof {
            let yi = y as int;
            assert(cv == (CellV { x: es[i as int].x, label: es[i as int].label }));
            assert(row@ == vecs[yi]@.push(cell));
            assert(rows@ == vecs.remove(yi).insert(yi, row));
            assert(row_view(row@) =~= grown[yi].push(cv));
            let target = grown.update(yi, grown[yi].push(cv));
            assert forall|j: int| 0 <= j < rows@.len() implies rows_view(rows@)[j]
                == target[j] by {
                if j < yi {
                    assert(rows@[j] == vecs[j]);
                } else if j == yi {
                    assert(rows@[j] == row);
                } else {
                    assert(rows@[j] == vecs.remove(yi)[j - 1]);
                    assert(vecs.remove(yi)[j - 1] == vecs[j]);
                }
            }
            assert(rows_view(rows@) =~= target);
            assert(es.take(i as int + 1).drop_last() =~= es.take(i as int));
            assert(es.take(i as int + 1).last() == es[i as int]);
            let ei = es[i as int];
            assert(rows_of(es.take(i as int + 1)) == add_cell(rows_of(es.take(i as int)), ei));
            assert(target == add_cell(r0, es[i as int]));
        }
        i = i + 1;
    }
    proof {
        assert(es.take(es.len() as int) =~= es);
    }
    rows
}

} // verus!
