use vstd::prelude::*;
use vstd::string::{StrSliceExecFns, StringExecFns};
use crate::layout::opt_v;
use crate::rows::{Cell, CellV, row_view, rows_view};

verus! {

pub open spec fn sat_sub(a: nat, b: nat) -> nat {
    if a >= b {
        (a - b) as nat
    } else {
        0
    }
}

/// The horizontal fill between a branch glyph at column `lo` and the next
/// one at column `hi`: one glyph per column strictly between them.
pub open spec fn gap(hi: nat, lo: nat) -> nat {
    if hi > lo {
        (hi - lo - 1) as nat
    } else {
        0
    }
}

pub open spec fn blanks(n: nat) -> Seq<char> {
    Seq::new(n, |i: int| ' ')
}

pub open spec fn dashes(n: nat) -> Seq<char> {
    Seq::new(n, |i: int| '─')
}

/// One row's label line: each cell's label, padded with spaces from the
/// write cursor to the cell's column.
pub open spec fn label_line(row: Seq<CellV>, cursor: nat) -> Seq<char>
    decreases row.len(),
{
    if row.len() == 0 {
        Seq::empty()
    } else {
        blanks(sat_sub(row[0].x, cursor)) + row[0].label + label_line(
            row.drop_first(),
            row[0].x + row[0].label.len(),
        )
    }
}

/// Whether column `x` falls in the half-open span from `lo` up to `hi`;
/// an absent `hi` reaches to the end of the row.
pub open spec fn in_span(x: nat, lo: nat, hi: Option<nat>) -> bool {
    lo <= x && match hi {
        Option::Some(h) => x < h,
        Option::None => true,
    }
}

/// The columns of the cells of `row` that fall in the span, in row order.
pub open spec fn span(row: Seq<CellV>, lo: nat, hi: Option<nat>) -> Seq<nat>
    decreases row.len(),
{
    if row.len() == 0 {
        Seq::empty()
    } else {
        (if in_span(row[0].x, lo, hi) {
            seq![row[0].x]
        } else {
            Seq::empty()
        }) + span(row.drop_first(), lo, hi)
    }
}

/// The glyphs of a spread after its left branch: before each later
/// descendant at `xs[j]`, horizontal fill across the gap, then a through
/// glyph, or the terminal glyph at the last descendant.
pub open spec fn branch_run(xs: Seq<nat>, j: int) -> Seq<char>
    decreases xs.len() - j,
{
    if j < 1 || j >= xs.len() {
        Seq::empty()
    } else {
        dashes(gap(xs[j], xs[j - 1])) + seq![
            if j == xs.len() - 1 {
                '┐'
            } else {
                '┬'
            },
        ] + branch_run(xs, j + 1)
    }
}

/// The right end of the span an upper cell claims: the next upper cell's
/// column, or the end of the row under the last upper cell.
pub open spec fn hi_of(upper: Seq<CellV>) -> Option<nat> {
    if upper.len() >= 2 {
        Option::Some(upper[1].x)
    } else {
        Option::None
    }
}

/// The connector line between two adjacent rows: each upper cell in turn
/// claims the lower cells whose columns fall in its span.  None drawn
/// when the span is empty; a single vertical glyph at the upper cell's
/// own column when it holds one; a spread of branch glyphs when it holds
/// more.  `last` is the write cursor.
pub open spec fn connector(upper: Seq<CellV>, lower: Seq<CellV>, last: nat) -> Seq<char>
    decreases upper.len(),
{
    if upper.len() == 0 {
        Seq::empty()
    } else {
        let below = span(lower, upper[0].x, hi_of(upper));
        if below.len() == 0 {
            connector(upper.drop_first(), lower, last)
        } else if below.len() == 1 {
            blanks(sat_sub(upper[0].x, last)) + seq!['│'] + connector(
                upper.drop_first(),
                lower,
                below[0] + 1,
            )
        } else {
            blanks(sat_sub(upper[0].x, last)) + seq!['├'] + branch_run(below, 1) + connector(
                upper.drop_first(),
                lower,
                below.last() + 1,
            )
        }
    }
}

/// The lines from row `r` on: before each row's labels, the connector
/// under the row above it.
pub open spec fn render_from(rows: Seq<Seq<CellV>>, r: int) -> Seq<char>
    decreases rows.len() - r,
{
    if r < 1 || r >= rows.len() {
        Seq::empty()
    } else {
        seq!['\n'] + connector(rows[r - 1], rows[r], 0) + seq!['\n'] + label_line(rows[r], 0)
            + render_from(rows, r + 1)
    }
}

/// The whole text block: the first row's labels, then for every further
/// row a connector line and a label line, newline-separated, with no
/// trailing newline.
pub open spec fn render(rows: Seq<Seq<CellV>>) -> Seq<char> {
    if rows.len() == 0 {
        Seq::empty()
    } else {
        label_line(rows[0], 0) + render_from(rows, 1)
    }
}

/// Appends `n` spaces.
fn push_blanks(out: &mut String, n: usize)
    ensures
        final(out)@ == old(out)@ + blanks(n as nat),
{
    let ghost base = out@;
    let mut i: usize = 0;
    proof {
        assert(base + blanks(0) =~= base);
    }
    while i < n
        invariant
            i <= n,
            out@ == base + blanks(i as nat),
        decreases n - i,
    {
        out.append(" ");
        proof {
            reveal_strlit(" ");
            assert(out@ =~= base + blanks((i + 1) as nat));
        }
        i = i + 1;
    }
}

/// Appends `n` horizontal fill glyphs.
fn push_dashes(out: &mut String, n: usize)
    ensures
        final(out)@ == old(out)@ + dashes(n as nat),
{
    let ghost base = out@;
    let mut i: usize = 0;
    proof {
        assert(base + dashes(0) =~= base);
    }
    while i < n
        invariant
            i <= n,
            out@ == base + dashes(i as nat),
        decreases n - i,
    {
        out.append("─");
        proof {
            reveal_strlit("─");
            assert(out@ =~= base + dashes((i + 1) as nat));
        }
        i = i + 1;
    }
}

/// Appends one row's label line.
fn append_label_line(out: &mut String, row: &Vec<Cell>)
    ensures
        final(out)@ == old(out)@ + label_line(row_view(row@), 0),
{
    let ghost base = out@;
    let ghost rv = row_view(row@);
    let mut prev_x: usize = 0;
    let mut prev_w: usize = 0;
    let mut i: usize = 0;
    proof {
        assert(rv.skip(0) =~= rv);
    }
    while i < row.len()
        invariant
            rv == row_view(row@),
            i <= row@.len(),
            base + label_line(rv, 0) == out@ + label_line(
                rv.skip(i as int),
                prev_x as nat + prev_w as nat,
            ),
        decreases row@.len() - i,
    {
        let ghost cursor = prev_x as nat + prev_w as nat;
        let c = &row[i];
        let p1 = if c.x >= prev_x {
            c.x - prev_x
        } else {
            0
        };
        let pad = if p1 >= prev_w {
            p1 - prev_w
        } else {
            0
        };
        proof {
            assert(pad as nat == sat_sub(c@.x, cursor));
            assert(rv.skip(i as int)[0] == c@);
            assert(rv.skip(i as int).drop_first() =~= rv.skip(i as int + 1));
        }
        push_blanks(out, pad);
        out.append(c.label.as_str());
        let w = c.label.as_str().unicode_len();
        proof {
            assert(label_line(rv.skip(i as int), cursor) == blanks(sat_sub(c@.x, cursor))
                + c@.label + label_line(rv.skip(i as int + 1), c@.x + c@.label.len()));
            assert(base + label_line(rv, 0) =~= out@ + label_line(
                rv.skip(i as int + 1),
                c@.x + c@.label.len(),
            ));
        }
        prev_x = c.x;
        prev_w = w;
        i = i + 1;
    }
    proof {
        assert(rv.skip(row@.len() as int) =~= Seq::<CellV>::empty());
        assert(out@ + label_line(Seq::<CellV>::empty(), prev_x as nat + prev_w as nat) =~= out@);
    }
}

pub open spec fn cols_view(s: Seq<usize>) -> Seq<nat> {
    Seq::new(s.len(), |i: int| s[i] as nat)
}

/// Collects the columns of the cells of `row` that fall in the span.
fn span_columns(row: &Vec<Cell>, lo: usize, hi: Option<usize>) -> (cols: Vec<usize>)
    ensures
        cols_view(cols@) == span(row_view(row@), lo as nat, opt_v(hi)),
{
    let ghost rv = row_view(row@);
    let ghost hiv = opt_v(hi);
    let mut cols: Vec<usize> = Vec::new();
    let mut i: usize = 0;
    proof {
        assert(rv.skip(0) =~= rv);
        assert(cols_view(cols@) =~= Seq::<nat>::empty());
        assert(Seq::<nat>::empty() + span(rv, lo as nat, hiv) =~= span(rv, lo as nat, hiv));
    }
    while i < row.len()
        invariant
            rv == row_view(row@),
            hiv == opt_v(hi),
            i <= row@.len(),
            cols_view(cols@) + span(rv.skip(i as int), lo as nat, hiv) == span(rv, lo as nat, hiv),
        decreases row@.len() - i,
    {
        let cx = row[i].x;
        let keep = lo <= cx && (match hi {
            Option::Some(h) => cx < h,
            Option::None => true,
        });
        let ghost c0 = cols_view(cols@);
        proof {
            assert(rv.skip(i as int)[0] == row@[i as int]@);
            assert(rv.skip(i as int).drop_first() =~= rv.skip(i as int + 1));
            assert(keep == in_span(cx as nat, lo as nat, hiv));
        }
        if keep {
            cols.push(cx);
            proof {
                assert(cols_view(cols@) =~= c0 + seq![cx as nat]);
                assert((c0 + seq![cx as nat]) + span(rv.skip(i as int + 1), lo as nat, hiv) =~= c0
                    + (seq![cx as nat] + span(rv.skip(i as int + 1), lo as nat, hiv)));
            }
        } else {
            proof {
                assert(Seq::<nat>::empty() + span(rv.skip(i as int + 1), lo as nat, hiv) =~= span(
                    rv.skip(i as int + 1),
                    lo as nat,
                    hiv,
                ));
            }
        }
        i = i + 1;
    }
    proof {
        assert(rv.skip(row@.len() as int) =~= Seq::<CellV>::empty());
        assert(cols_view(cols@) + Seq::<nat>::empty() =~= cols_view(cols@));
    }
    cols
}

/// Appends the connector line that joins the row `upper` to the row
/// `lower` directly below it.
#[verifier::rlimit(60)]
fn append_connector(out: &mut String, upper: &Vec<Cell>, lower: &Vec<Cell>)
    ensures
        final(out)@ == old(out)@ + connector(row_view(upper@), row_view(lower@), 0),
{
    let ghost base = out@;
    let ghost uv = row_view(upper@);
    let ghost lv = row_view(lower@);
    let mut last_x: usize = 0;
    let mut last_e: usize = 0;
    let mut i: usize = 0;
    proof {
        assert(uv.skip(0) =~= uv);
    }
    while i < upper.len()
        invariant
            uv == row_view(upper@),
            lv == row_view(lower@),
            i <= upper@.len(),
            last_e <= 1,
            base + connector(uv, lv, 0) == out@ + connector(
                uv.skip(i as int),
                lv,
                last_x as nat + last_e as nat,
            ),
        decreases upper@.len() - i,
    {
        let ghost cursor = last_x as nat + last_e as nat;
        let px = upper[i].x;
        let hi: Option<usize> = if i + 1 < upper.len() {
            Some(upper[i + 1].x)
        } else {
            None
        };
        proof {
            assert(uv.skip(i as int)[0] == upper@[i as int]@);
            if i + 1 < upper@.len() {
                assert(uv.skip(i as int)[1] == upper@[i as int + 1]@);
            }
            assert(hi_of(uv.skip(i as int)) == opt_v(hi));
            assert(uv.skip(i as int).drop_first() =~= uv.skip(i as int + 1));
        }
        let below = span_columns(lower, px, hi);
        let ghost bl = span(lv, px as nat, opt_v(hi));
        proof {
            assert(bl.len() == below@.len());
        }
        if below.len() == 0 {
            proof {
                assert(connector(uv.skip(i as int), lv, cursor) == connector(
                    uv.skip(i as int + 1),
                    lv,
                    cursor,
                ));
            }
        } else {
            let p1 = if px >= last_x {
                px - last_x
            } else {
                0
            };
            let pad = if p1 >= last_e {
                p1 - last_e
            } else {
                0
            };
            proof {
                assert(pad as nat == sat_sub(px as nat, cursor));
            }
            push_blanks(out, pad);
            if below.len() == 1 {
                out.append("│");
                proof {
                    reveal_strlit("│");
                    assert(bl[0] == below@[0] as nat);
                    assert(connector(uv.skip(i as int), lv, cursor) == blanks(
                        sat_sub(px as nat, cursor),
                    ) + seq!['│'] + connector(uv.skip(i as int + 1), lv, bl[0] + 1));
                    assert(base + connector(uv, lv, 0) =~= out@ + connector(
                        uv.skip(i as int + 1),
                        lv,
                        bl[0] + 1,
                    ));
                }
                last_x = below[0];
                last_e = 1;
            } else {
                out.append("├");
                let ghost headed = out@;
                proof {
                    reveal_strlit("├");
                }
                let mut j: usize = 1;
                while j < below.len()
                    invariant
                        bl == span(lv, px as nat, opt_v(hi)),
                        cols_view(below@) == bl,
                        1 <= j <= below@.len(),
                        below@.len() == bl.len(),
                        out@ + branch_run(bl, j as int) == headed + branch_run(bl, 1),
                    decreases below@.len() - j,
                {
                    let prev = below[j - 1];
                    let cur = below[j];
                    let g = if cur > prev {
                        cur - prev - 1
                    } else {
                        0
                    };
                    proof {
                        assert(bl[j as int] == below@[j as int] as nat);
                        assert(bl[j as int - 1] == below@[j as int - 1] as nat);
                        assert(g as nat == gap(bl[j as int], bl[j as int - 1]));
                    }
                    push_dashes(out, g);
                    if j + 1 < below.len() {
                        out.append("┬");
                        proof {
                            reveal_strlit("┬");
                        }
                    } else {
                        out.append("┐");
                        proof {
                            reveal_strlit("┐");
                        }
                    }
                    proof {
                        assert(branch_run(bl, j as int) == dashes(
                            gap(bl[j as int], bl[j as int - 1]),
                        ) + seq![
                            if j as int == bl.len() - 1 {
                                '┐'
                            } else {
                                '┬'
                            },
                        ] + branch_run(bl, j as int + 1));
                        assert(out@ + branch_run(bl, j as int + 1) =~= headed + branch_run(
                            bl,
                            1,
                        ));
                    }
                    j = j + 1;
                }
                proof {
                    assert(branch_run(bl, bl.len() as int) == Seq::<char>::empty());
                    assert(out@ =~= headed + branch_run(bl, 1));
                    assert(bl.last() == below@.last() as nat);
                    assert(connector(uv.skip(i as int), lv, cursor) == blanks(
                        sat_sub(px as nat, cursor),
                    ) + seq!['├'] + branch_run(bl, 1) + connector(
                        uv.skip(i as int + 1),
                        lv,
                        bl.last() + 1,
                    ));
                    assert(base + connector(uv, lv, 0) =~= out@ + connector(
                        uv.skip(i as int + 1),
                        lv,
                        bl.last() + 1,
                    ));
                }
                last_x = below[below.len() - 1];
                last_e = 1;
            }
        }
        i = i + 1;
    }
    proof {
        assert(uv.skip(upper@.len() as int) =~= Seq::<CellV>::empty());
        assert(out@ + connector(Seq::<CellV>::empty(), lv, last_x as nat + last_e as nat)
            =~= out@);
    }
}

/// Renders the grid: one label line per row, and a connector line between
/// every pair of adjacent rows.
pub fn render_rows(rows: &Vec<Vec<Cell>>) -> (out: String)
    ensures
        out@ == render(rows_view(rows@)),
{
    let ghost rsv = rows_view(rows@);
    let mut out = String::new();
    if rows.len() == 0 {
        return out;
    }
    append_label_line(&mut out, &rows[0]);
    proof {
        assert(row_view(rows@[0]@) == rsv[0]);
        assert(Seq::<char>::empty() + label_line(rsv[0], 0) =~= label_line(rsv[0], 0));
    }
    let mut r: usize = 1;
    while r < rows.len()
        invariant
            rsv == rows_view(rows@),
            1 <= r <= rows@.len(),
            out@ + render_from(rsv, r as int) == render(rsv),
        decreases rows@.len() - r,
    {
        out.append("\n");
        append_connector(&mut out, &rows[r - 1], &rows[r]);
        out.append("\n");
        append_label_line(&mut out, &rows[r]);
        proof {
            reveal_strlit("\n");
            assert(row_view(rows@[r as int - 1]@) == rsv[r as int - 1]);
            assert(row_view(rows@[r as int]@) == rsv[r as int]);
            assert(render_from(rsv, r as int) == seq!['\n'] + connector(
                rsv[r as int - 1],
                rsv[r as int],
                0,
            ) + seq!['\n'] + label_line(rsv[r as int], 0) + render_from(rsv, r as int + 1));
            assert(out@ + render_from(rsv, r as int + 1) =~= render(rsv));
        }
        r = r + 1;
    }
    proof {
        assert(render_from(rsv, rows@.len() as int) == Seq::<char>::empty());
        assert(out@ + Seq::<char>::empty() =~= out@);
    }
    out
}

} // verus!
