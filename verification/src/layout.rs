use vstd::prelude::*;
use vstd::arithmetic::div_mod::{lemma_div_is_ordered, lemma_fundamental_div_mod};

verus! {

/// Number of pages needed for `n` cards on pages of `per_page` slots.
pub open spec fn page_count(n: nat, per_page: nat) -> nat {
    if n == 0 || per_page == 0 { 0 } else { ((n - 1) as nat / per_page) + 1 }
}

pub fn reverse_row<T>(row: Vec<T>) -> (out: Vec<T>)
    ensures
        out@ == row@.reverse(),
{
    let mut row = row;
    let ghost orig = row@;
    let mut out: Vec<T> = Vec::new();
    while row.len() > 0
        invariant
            row@.len() + out@.len() == orig.len(),
            forall|i: int| 0 <= i < row@.len() ==> row@[i] == orig[i],
            forall|i: int| 0 <= i < out@.len() ==> out@[i] == orig[orig.len() - 1 - i],
        decreases row.len(),
    {
        let x = row.pop().unwrap();
        out.push(x);
    }
    assert(out@ =~= orig.reverse());
    out
}


/// The card that lands in cell (`row`, `col`) of page `page` when `items` are laid out
/// row by row, `side` cards per row and `side` rows per page; `None` past the last card.
pub open spec fn cell_of<T>(items: Seq<T>, side: nat, page: int, row: int, col: int) -> Option<T> {
    let i = page * (side * side) + row * side + col;
    if 0 <= i < items.len() {
        Some(items[i])
    } else {
        None
    }
}

/// The pages of a `side` x `side` layout of `items`, as nested sequences.
pub open spec fn paged<T>(items: Seq<T>, side: nat) -> Seq<Seq<Seq<Option<T>>>> {
    Seq::new(
        page_count(items.len(), side * side),
        |p: int| Seq::new(side, |r: int| Seq::new(side, |c: int| cell_of(items, side, p, r, c))),
    )
}

/// The rows of a page, seen as sequences.
pub open spec fn rows_of<T>(rows: Seq<Vec<Option<T>>>) -> Seq<Seq<Option<T>>> {
    Seq::new(rows.len(), |r: int| rows[r]@)
}

/// A nested vector of pages, rows and cells, seen as nested sequences.
pub open spec fn grid_of<T>(pages: Seq<Vec<Vec<Option<T>>>>) -> Seq<Seq<Seq<Option<T>>>> {
    Seq::new(pages.len(), |p: int| rows_of(pages[p]@))
}

proof fn lemma_cell_bound(s: int, r: int, c: int)
    requires
        0 <= r < s,
        0 <= c < s,
    ensures
        0 <= r * s + c < s * s,
        r * s + c + 1 <= s * s,
{
    assert(0 <= r * s + c < s * s) by (nonlinear_arith)
        requires
            0 <= r < s,
            0 <= c < s,
    ;
}

proof fn lemma_row_major_lt(s: int, r1: int, c1: int, r2: int, c2: int)
    requires
        0 <= c1 < s,
        0 <= c2,
        r1 < r2,
    ensures
        r1 * s + c1 < r2 * s + c2,
{
    assert(r1 * s + c1 < r2 * s + c2) by (nonlinear_arith)
        requires
            0 <= c1 < s,
            0 <= c2,
            r1 < r2,
    ;
}

proof fn lemma_page_major_lt(ss: int, p1: int, rem1: int, p2: int, rem2: int)
    requires
        0 <= rem1 < ss,
        0 <= rem2,
        p1 < p2,
    ensures
        p1 * ss + rem1 < p2 * ss + rem2,
{
    lemma_row_major_lt(ss, p1, rem1, p2, rem2);
}

proof fn lemma_page_count(n: nat, ss: nat, pages: nat, rem: nat)
    requires
        ss > 0,
        rem < ss,
        n == pages * ss + rem,
    ensures
        page_count(n, ss) == if rem > 0 { pages + 1 } else { pages },
{
    if n > 0 {
        if rem > 0 {
            assert(((n - 1) as nat) / ss == pages) by (nonlinear_arith)
                requires
                    ss > 0,
                    0 < rem < ss,
                    n == pages * ss + rem,
            ;
        } else {
            assert(pages > 0) by (nonlinear_arith)
                requires
                    n > 0,
                    n == pages * ss,
            ;
            assert(((n - 1) as nat) / ss == pages - 1) by (nonlinear_arith)
                requires
                    ss > 0,
                    pages > 0,
                    n == pages * ss,
            ;
        }
    } else {
        assert(pages == 0) by (nonlinear_arith)
            requires
                ss > 0,
                0 == pages * ss + rem,
        ;
    }
}

/// The layout of `items` on `side` x `side` pages (see `paged`). With a grid size of 0 no
/// row is ever full, so all the items go in one row of a single page.
pub open spec fn grouped<T>(items: Seq<T>, side: nat) -> Seq<Seq<Seq<Option<T>>>> {
    if side == 0 {
        if items.len() == 0 {
            seq![]
        } else {
            seq![seq![items.map_values(|x: T| Some(x))]]
        }
    } else {
        paged(items, side)
    }
}

/// All the images in one row, in order.
fn one_row<T>(images: Vec<T>) -> (row: Vec<Option<T>>)
    ensures
        row@ == images@.map_values(|x: T| Some(x)),
{
    let ghost items = images@;
    let ghost n = items.len() as int;
    let mut rest = reverse_row(images);
    let mut row: Vec<Option<T>> = Vec::new();
    while rest.len() > 0
        invariant
            n == items.len(),
            rest@.len() + row@.len() == n,
            forall|i: int| 0 <= i < rest@.len() ==> rest@[i] == items[n - 1 - i],
            forall|c: int| 0 <= c < row@.len() ==> #[trigger] row@[c] == Some(items[c]),
        decreases rest.len(),
    {
        let x = rest.pop().unwrap();
        row.push(Some(x));
    }
    assert(row@ =~= items.map_values(|x: T| Some(x)));
    row
}

/// Lays `images` out row by row on pages of `side_size` x `side_size` cells, in order;
/// the last page is filled up with empty cells.
pub fn group_images<T>(images: Vec<T>, side_size: usize) -> (pages: Vec<Vec<Vec<Option<T>>>>)
    ensures
        grid_of(pages@) == grouped(images@, side_size as nat),
{
    if side_size == 0 {
        let ghost items = images@;
        let mut pages: Vec<Vec<Vec<Option<T>>>> = Vec::new();
        if images.len() == 0 {
            assert(grid_of(pages@) =~= grouped(items, 0));
            return pages;
        }
        let row = one_row(images);
        let mut page: Vec<Vec<Option<T>>> = Vec::new();
        page.push(row);
        pages.push(page);
        proof {
            let want = grouped(items, 0);
            assert(rows_of(pages@[0]@) =~= want[0]);
            assert(grid_of(pages@) =~= want);
        }
        return pages;
    }
    let ghost items = images@;
    let ghost n = items.len() as int;
    let ghost s = side_size as int;
    let ghost ss = s * s;
    let mut rest = reverse_row(images);
    let mut pages: Vec<Vec<Vec<Option<T>>>> = Vec::new();
    let mut current_page: Vec<Vec<Option<T>>> = Vec::new();
    let mut current_row: Vec<Option<T>> = Vec::new();
    let ghost mut k: int = 0;
    proof {
        assert(0 * ss + 0 * s + 0 == 0) by (nonlinear_arith);
    }
    while rest.len() > 0
        invariant
            s == side_size as int,
            ss == s * s,
            s >= 1,
            n == items.len(),
            0 <= k <= n,
            rest@.len() == n - k,
            forall|i: int| 0 <= i < rest@.len() ==> rest@[i] == items[n - 1 - i],
            k == pages@.len() * ss + current_page@.len() * s + current_row@.len(),
            current_row@.len() < s,
            current_page@.len() < s,
            forall|p: int, r: int|
                0 <= p < pages@.len() && 0 <= r < s ==> (#[trigger] pages@[p]@[r])@.len() == s,
            forall|p: int| 0 <= p < pages@.len() ==> (#[trigger] pages@[p])@.len() == s,
            forall|p: int, r: int, c: int|
                0 <= p < pages@.len() && 0 <= r < s && 0 <= c < s ==> (#[trigger] pages@[p]@[r]@[c])
                    == Some(items[p * ss + r * s + c]),
            forall|r: int| 0 <= r < current_page@.len() ==> (#[trigger] current_page@[r])@.len() == s,
            forall|r: int, c: int|
                0 <= r < current_page@.len() && 0 <= c < s ==> (#[trigger] current_page@[r]@[c])
                    == Some(items[pages@.len() * ss + r * s + c]),
            forall|c: int|
                0 <= c < current_row@.len() ==> #[trigger] current_row@[c] == Some(
                    items[pages@.len() * ss + current_page@.len() * s + c],
                ),
        decreases rest.len(),
    {
        let image = rest.pop().unwrap();
        proof {
            assert(image == items[k]);
        }
        current_row.push(Some(image));
        proof {
            k = k + 1;
        }
        if current_row.len() == side_size {
            let ghost old_page = current_page@;
            let ghost np = pages@.len() as int;
            let ghost nr = current_page@.len() as int;
            current_page.push(current_row);
            current_row = Vec::new();
            proof {
                assert(nr * s + s == (nr + 1) * s) by (nonlinear_arith);
            }
            if current_page.len() == side_size {
                let ghost full = current_page@;
                pages.push(current_page);
                current_page = Vec::new();
                proof {
                    assert(np * ss + s * s == (np + 1) * ss) by (nonlinear_arith)
                        requires
                            ss == s * s,
                    ;
                    assert forall|p: int, r: int, c: int|
                        0 <= p < pages@.len() && 0 <= r < s && 0 <= c < s implies (#[trigger] pages@[p]@[r]@[c])
                            == Some(items[p * ss + r * s + c]) by {
                        if p == np {
                            assert(pages@[p]@ == full);
                        }
                    }
                }
            }
        }
    }
    let ghost np = pages@.len() as int;
    let ghost nr = current_page@.len() as int;
    let ghost nc = current_row@.len() as int;
    proof {
        lemma_cell_bound(s, nr, nc);
        // every cell placed so far holds the card that the layout puts there
        assert forall|p: int, r: int, c: int|
            0 <= p < np && 0 <= r < s && 0 <= c < s implies (#[trigger] pages@[p]@[r]@[c])
                == cell_of(items, s as nat, p, r, c) by {
            lemma_cell_bound(s, r, c);
            lemma_page_major_lt(ss, p, r * s + c, np, nr * s + nc);
        }
        assert forall|r: int, c: int|
            0 <= r < nr && 0 <= c < s implies (#[trigger] current_page@[r]@[c]) == cell_of(
                items,
                s as nat,
                np,
                r,
                c,
            ) by {
            lemma_row_major_lt(s, r, c, nr, nc);
        }
    }
    if current_row.len() > 0 {
        while current_row.len() < side_size
            invariant
                s == side_size as int,
                ss == s * s,
                n == items.len(),
                n == np * ss + nr * s + nc,
                0 <= nc < s,
                0 <= nr < s,
                0 <= np,
                nc <= current_row@.len() <= s,
                forall|c: int|
                    0 <= c < current_row@.len() ==> #[trigger] current_row@[c] == cell_of(
                        items,
                        s as nat,
                        np,
                        nr,
                        c,
                    ),
            decreases side_size - current_row.len(),
        {
            let ghost before = current_row@;
            current_row.push(None);
            proof {
                let c = before.len() as int;
                assert(current_row@[c] == cell_of(items, s as nat, np, nr, c));
            }
        }
        current_page.push(current_row);
    }
    let ghost nr2 = current_page@.len() as int;
    if current_page.len() > 0 {
        while current_page.len() < side_size
            invariant
                s == side_size as int,
                ss == s * s,
                n == items.len(),
                n == np * ss + nr * s + nc,
                0 <= nc < s,
                0 <= nr < s,
                0 <= np,
                nr <= nr2,
                nc > 0 ==> nr < nr2,
                nr2 <= current_page@.len() <= s,
                forall|r: int| 0 <= r < current_page@.len() ==> (#[trigger] current_page@[r])@.len() == s,
                forall|r: int, c: int|
                    0 <= r < current_page@.len() && 0 <= c < s ==> (#[trigger] current_page@[r]@[c])
                        == cell_of(items, s as nat, np, r, c),
            decreases side_size - current_page.len(),
        {
            let ghost r = current_page@.len() as int;
            let mut empty_row: Vec<Option<T>> = Vec::new();
            while empty_row.len() < side_size
                invariant
                    empty_row@.len() <= side_size,
                    forall|c: int| 0 <= c < empty_row@.len() ==> #[trigger] empty_row@[c] is None,
                decreases side_size - empty_row.len(),
            {
                empty_row.push(None);
            }
            current_page.push(empty_row);
            proof {
                assert forall|c: int| 0 <= c < s implies (#[trigger] current_page@[r]@[c]) == cell_of(
                    items,
                    s as nat,
                    np,
                    r,
                    c,
                ) by {
                    if r > nr {
                        lemma_row_major_lt(s, nr, nc, r, c);
                    }
                }
            }
        }
        pages.push(current_page);
    }
    proof {
        assert((nr * s + nc > 0) == (nr > 0 || nc > 0)) by (nonlinear_arith)
            requires
                0 <= nr,
                0 <= nc,
                s >= 1,
        ;
        lemma_page_count(n as nat, ss as nat, np as nat, (nr * s + nc) as nat);
        let target = paged(items, s as nat);
        let got = grid_of(pages@);
        assert(got.len() == target.len());
        assert forall|p: int| 0 <= p < got.len() implies #[trigger] got[p] == target[p] by {
            assert forall|r: int| 0 <= r < s implies #[trigger] got[p][r] == target[p][r] by {
                assert(got[p][r] =~= target[p][r]);
            }
            assert(got[p] =~= target[p]);
        }
        assert(got =~= target);
    }
    pages
}


/// Every row of every page mirrored left to right.
pub open spec fn mirrored<T>(pages: Seq<Seq<Seq<Option<T>>>>) -> Seq<Seq<Seq<Option<T>>>> {
    pages.map_values(|page: Seq<Seq<Option<T>>>| page.map_values(|row: Seq<Option<T>>| row.reverse()))
}

/// Reverses each row of a page, keeping the order of the rows.
pub fn reverse_rows<T>(page: Vec<Vec<T>>) -> (out: Vec<Vec<T>>)
    ensures
        out@.len() == page@.len(),
        forall|r: int| 0 <= r < page@.len() ==> (#[trigger] out@[r])@ == page@[r]@.reverse(),
{
    let ghost orig = page@;
    let mut rest = reverse_row(page);
    let mut out: Vec<Vec<T>> = Vec::new();
    while rest.len() > 0
        invariant
            rest@.len() + out@.len() == orig.len(),
            forall|i: int| 0 <= i < rest@.len() ==> rest@[i] == orig[orig.len() - 1 - i],
            forall|r: int| 0 <= r < out@.len() ==> (#[trigger] out@[r])@ == orig[r]@.reverse(),
        decreases rest.len(),
    {
        let row = rest.pop().unwrap();
        out.push(reverse_row(row));
    }
    out
}

/// Mirrors every row of every page, so that a sheet printed on the back of a page lines
/// up with the front when the paper is flipped along its vertical axis.
pub fn align_back_cards<T>(back_pages: Vec<Vec<Vec<Option<T>>>>) -> (aligned: Vec<Vec<Vec<Option<T>>>>)
    ensures
        grid_of(aligned@) == mirrored(grid_of(back_pages@)),
{
    let ghost orig = back_pages@;
    let mut rest = reverse_row(back_pages);
    let mut out: Vec<Vec<Vec<Option<T>>>> = Vec::new();
    while rest.len() > 0
        invariant
            rest@.len() + out@.len() == orig.len(),
            forall|i: int| 0 <= i < rest@.len() ==> rest@[i] == orig[orig.len() - 1 - i],
            forall|p: int| 0 <= p < out@.len() ==> (#[trigger] out@[p])@.len() == orig[p]@.len(),
            forall|p: int, r: int|
                0 <= p < out@.len() && 0 <= r < orig[p]@.len() ==> (#[trigger] out@[p]@[r])@
                    == orig[p]@[r]@.reverse(),
        decreases rest.len(),
    {
        let page = rest.pop().unwrap();
        out.push(reverse_rows(page));
    }
    proof {
        let got = grid_of(out@);
        let want = mirrored(grid_of(orig));
        assert forall|p: int| 0 <= p < got.len() implies #[trigger] got[p] == want[p] by {
            assert(got[p] =~= want[p]);
        }
        assert(got =~= want);
    }
    out
}

/// Mirroring the rows twice gives back the original pages.
pub proof fn lemma_mirrored_twice<T>(pages: Seq<Seq<Seq<Option<T>>>>)
    ensures
        mirrored(mirrored(pages)) == pages,
{
    let twice = mirrored(mirrored(pages));
    assert forall|p: int| 0 <= p < pages.len() implies #[trigger] twice[p] == pages[p] by {
        assert forall|r: int| 0 <= r < pages[p].len() implies #[trigger] twice[p][r] == pages[p][r] by {
            assert(twice[p][r] =~= pages[p][r]);
        }
        assert(twice[p] =~= pages[p]);
    }
    assert(twice =~= pages);
}

/// Where the layout puts card `i` of `side` x `side` pages: its page, row and column.
pub open spec fn position_of(i: int, side: int) -> (int, int, int) {
    (i / (side * side), (i % (side * side)) / side, i % side)
}

pub proof fn lemma_position(i: int, s: int)
    requires
        s >= 1,
        i >= 0,
    ensures
        position_of(i, s).0 * (s * s) + position_of(i, s).1 * s + position_of(i, s).2 == i,
        0 <= position_of(i, s).0,
        0 <= position_of(i, s).1 < s,
        0 <= position_of(i, s).2 < s,
{
    let ss = s * s;
    assert(ss >= 1) by (nonlinear_arith)
        requires
            s >= 1,
            ss == s * s,
    ;
    lemma_fundamental_div_mod(i, ss);
    let rem = i % ss;
    lemma_fundamental_div_mod(rem, s);
    assert((rem % s) == i % s) by {
        assert(i == (i / ss) * ss + rem);
        assert((i / ss) * ss == ((i / ss) * s) * s) by (nonlinear_arith)
            requires
                ss == s * s,
        ;
        vstd::arithmetic::div_mod::lemma_mod_multiples_vanish((i / ss) * s, rem, s);
        assert(i == ((i / ss) * s) * s + rem);
        assert(i == s * ((i / ss) * s) + rem) by (nonlinear_arith)
            requires
                i == ((i / ss) * s) * s + rem,
        ;
    }
    assert(0 <= rem / s < s) by (nonlinear_arith)
        requires
            0 <= rem < ss,
            ss == s * s,
            s >= 1,
            rem == s * (rem / s) + rem % s,
            0 <= rem % s < s,
    ;
    assert(rem == (rem / s) * s + rem % s) by (nonlinear_arith)
        requires
            rem == s * (rem / s) + rem % s,
    ;
    assert(i == (i / ss) * ss + rem) by (nonlinear_arith)
        requires
            i == ss * (i / ss) + rem,
    ;
    assert(i / ss >= 0) by (nonlinear_arith)
        requires
            i >= 0,
            ss >= 1,
    ;
}

/// No card is lost or moved out of order: card `i` lands in the cell `position_of(i)`.
pub proof fn lemma_paged_position<T>(items: Seq<T>, side: nat, i: int)
    requires
        side >= 1,
        0 <= i < items.len(),
    ensures
        ({
            let (page, row, col) = position_of(i, side as int);
            &&& page < paged(items, side).len()
            &&& paged(items, side)[page][row][col] == Some(items[i])
        }),
{
    let s = side as int;
    let ss = s * s;
    lemma_position(i, s);
    assert(ss >= 1) by (nonlinear_arith)
        requires
            s >= 1,
            ss == s * s,
    ;
    lemma_div_is_ordered(i, items.len() - 1, ss);
}

/// Only the last page has empty cells, and fewer than a page's worth: the pages hold
/// `pages * side * side` cells, at least as many as the cards and less than a page more.
pub proof fn lemma_paged_padding<T>(items: Seq<T>, side: nat)
    requires
        side >= 1,
    ensures
        ({
            let cells = paged(items, side).len() * (side * side);
            &&& items.len() <= cells
            &&& cells < items.len() + side * side
        }),
{
    let ss = side * side;
    assert(ss >= 1) by (nonlinear_arith)
        requires
            side >= 1,
            ss == side * side,
    ;
    let n = items.len();
    if n > 0 {
        let q = ((n - 1) as nat) / ss;
        lemma_fundamental_div_mod((n - 1) as int, ss as int);
        assert(paged(items, side).len() == q + 1);
        let r = (n - 1) as int % (ss as int);
        assert(0 <= r < ss);
        assert(n == ss * q + r + 1);
        assert((q + 1) * ss == ss * q + ss) by (nonlinear_arith);
    } else {
        assert(paged(items, side).len() == 0);
        assert(0 * ss == 0) by (nonlinear_arith);
    }
}

} // verus!
