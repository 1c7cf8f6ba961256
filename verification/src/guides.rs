use vstd::prelude::*;
use vstd::arithmetic::div_mod::{lemma_fundamental_div_mod, lemma_fundamental_div_mod_converse};

verus! {

/// One cutting guide of a page grid, in grid coordinates (column and row boundaries
/// counted from the top left corner, `0..=side`).
#[derive(Clone, Copy, Debug, PartialEq, Eq, Structural)]
pub enum GuideLine {
    /// A vertical line over the whole page height at column boundary `col`.
    Column(usize),
    /// A short horizontal tick centred on the crossing of column boundary `col` and row
    /// boundary `row`.
    Crosshair(usize, usize),
    /// A horizontal line over the whole page width at row boundary `row`.
    Row(usize),
}

/// The guides of a `side` x `side` grid in drawing order: for each column boundary its
/// vertical line followed by its crosshairs from top to bottom, then every horizontal line
/// from top to bottom.
pub open spec fn guide_lines(side: nat) -> Seq<GuideLine> {
    let k: int = side as int + 1;
    Seq::new(
        (k * (k + 1) + k) as nat,
        |i: int|
            if i < k * (k + 1) {
                let col = i / (k + 1);
                let j = i % (k + 1);
                if j == 0 {
                    GuideLine::Column(col as usize)
                } else {
                    GuideLine::Crosshair(col as usize, (j - 1) as usize)
                }
            } else {
                GuideLine::Row((i - k * (k + 1)) as usize)
            },
    )
}

/// The cutting guides of a full `side_size` x `side_size` grid; they are drawn on every
/// page whether or not all cells hold a card.
pub fn grid_guides(side_size: usize) -> (guides: Vec<GuideLine>)
    requires
        (side_size + 1) * (side_size + 3) <= usize::MAX,
    ensures
        guides@ == guide_lines(side_size as nat),
{
    let ghost k: int = side_size + 1;
    let ghost target = guide_lines(side_size as nat);
    proof {
        assert(k * (k + 1) + k == (side_size + 1) * (side_size + 3)) by (nonlinear_arith)
            requires
                k == side_size + 1,
        ;
    }
    proof {
        assert(side_size < usize::MAX) by (nonlinear_arith)
            requires
                (side_size + 1) * (side_size + 3) <= usize::MAX,
        ;
    }
    let mut guides: Vec<GuideLine> = Vec::new();
    let mut col: usize = 0;
    while col <= side_size
        invariant
            k == side_size + 1,
            target == guide_lines(side_size as nat),
            target.len() == k * (k + 1) + k,
            (side_size + 1) * (side_size + 3) <= usize::MAX,
            col <= k,
            side_size < usize::MAX,
            guides@.len() == col * (k + 1),
            forall|i: int| 0 <= i < guides@.len() ==> #[trigger] guides@[i] == target[i],
        decreases k - col,
    {
        proof {
            assert(col * (k + 1) + (k + 1) <= k * (k + 1)) by (nonlinear_arith)
                requires
                    col < k,
            ;
        }
        let ghost base = guides@.len() as int;
        guides.push(GuideLine::Column(col));
        proof {
            lemma_fundamental_div_mod_converse(base, k + 1, col as int, 0);
        }
        let mut row: usize = 0;
        while row <= side_size
            invariant
                k == side_size + 1,
                target == guide_lines(side_size as nat),
                target.len() == k * (k + 1) + k,
                col < k,
                base == col * (k + 1),
                base + k + 1 <= k * (k + 1),
                row <= k,
                side_size < usize::MAX,
                guides@.len() == base + 1 + row,
                forall|i: int| 0 <= i < guides@.len() ==> #[trigger] guides@[i] == target[i],
            decreases k - row,
        {
            let ghost i = guides@.len() as int;
            guides.push(GuideLine::Crosshair(col, row));
            proof {
                lemma_fundamental_div_mod_converse(i, k + 1, col as int, row + 1);
            }
            row = row + 1;
        }
        proof {
            assert((col + 1) * (k + 1) == col * (k + 1) + k + 1) by (nonlinear_arith);
        }
        col = col + 1;
    }
    let mut row: usize = 0;
    while row <= side_size
        invariant
            k == side_size + 1,
            target == guide_lines(side_size as nat),
            target.len() == k * (k + 1) + k,
            (side_size + 1) * (side_size + 3) <= usize::MAX,
            row <= k,
            side_size < usize::MAX,
            guides@.len() == k * (k + 1) + row,
            forall|i: int| 0 <= i < guides@.len() ==> #[trigger] guides@[i] == target[i],
        decreases k - row,
    {
        guides.push(GuideLine::Row(row));
        row = row + 1;
    }
    assert(guides@ =~= target);
    guides
}


/// Every boundary of the grid gets its guide, once: there are (side + 1) * (side + 3) guides,
/// and for each column boundary `c` and row boundary
/// `r` in `0..=side`, the guides hold the vertical line `Column(c)`, the horizontal line
/// `Row(r)` and the crosshair `Crosshair(c, r)`; and no guide lies outside the grid.
pub proof fn lemma_guides_cover_grid(side: usize)
    ensures
        guide_lines(side as nat).len() == (side + 1) * (side + 3),
        forall|c: usize| c <= side ==> #[trigger] guide_lines(side as nat).contains(GuideLine::Column(c)),
        forall|r: usize| r <= side ==> #[trigger] guide_lines(side as nat).contains(GuideLine::Row(r)),
        forall|c: usize, r: usize|
            c <= side && r <= side ==> #[trigger] guide_lines(side as nat).contains(GuideLine::Crosshair(c, r)),
        forall|i: int|
            0 <= i < guide_lines(side as nat).len() ==> match #[trigger] guide_lines(side as nat)[i] {
                GuideLine::Column(c) => c <= side,
                GuideLine::Row(r) => r <= side,
                GuideLine::Crosshair(c, r) => c <= side && r <= side,
            },
{
    let g = guide_lines(side as nat);
    let k: int = side as int + 1;
    assert(k * (k + 1) + k == g.len());
    assert(k * (k + 1) + k == (side + 1) * (side + 3)) by (nonlinear_arith)
        requires
            k == side + 1,
    ;
    assert forall|c: usize| c <= side implies #[trigger] g.contains(GuideLine::Column(c)) by {
        let i = c * (k + 1);
        lemma_fundamental_div_mod_converse(i, k + 1, c as int, 0);
        assert(i + (k + 1) <= k * (k + 1)) by (nonlinear_arith)
            requires
                i == c * (k + 1),
                c < k,
        ;
        assert(g[i] == GuideLine::Column(c));
    }
    assert forall|r: usize| r <= side implies #[trigger] g.contains(GuideLine::Row(r)) by {
        let i = k * (k + 1) + r;
        assert(g[i] == GuideLine::Row(r));
    }
    assert forall|c: usize, r: usize| c <= side && r <= side implies #[trigger] g.contains(GuideLine::Crosshair(c, r)) by {
        let i = c * (k + 1) + r + 1;
        lemma_fundamental_div_mod_converse(i, k + 1, c as int, r + 1);
        assert(c * (k + 1) + (k + 1) <= k * (k + 1)) by (nonlinear_arith)
            requires
                c < k,
        ;
        assert(g[i] == GuideLine::Crosshair(c, r));
    }
    assert forall|i: int| 0 <= i < g.len() implies match #[trigger] g[i] {
        GuideLine::Column(c) => c <= side,
        GuideLine::Row(r) => r <= side,
        GuideLine::Crosshair(c, r) => c <= side && r <= side,
    } by {
        if i < k * (k + 1) {
            lemma_fundamental_div_mod(i, k + 1);
            assert(i / (k + 1) < k) by (nonlinear_arith)
                requires
                    0 <= i < k * (k + 1),
                    k >= 1,
                    i == (k + 1) * (i / (k + 1)) + i % (k + 1),
                    0 <= i % (k + 1) < k + 1,
            ;
        }
    }
}

} // verus!
