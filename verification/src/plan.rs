use vstd::prelude::*;
use crate::layout::{
    align_back_cards, cell_of, group_images, grid_of, grouped, lemma_position, mirrored, page_count, paged,
    position_of, reverse_row, rows_of, lemma_paged_position,
};
use vstd::arithmetic::div_mod::{lemma_div_is_ordered, lemma_fundamental_div_mod_converse};

verus! {

/// Which stack of cards a page shows.
#[derive(Clone, Copy, Debug, PartialEq, Eq, Structural)]
pub enum CardSide {
    Front,
    Back,
}

/// One printed page: which side it shows, and for each cell of its grid the index of
/// the card (into the front or back cards) drawn there, if any.
#[derive(Debug)]
pub struct PagePlan {
    pub side: CardSide,
    pub cells: Vec<Vec<Option<usize>>>,
}

/// The card indices `0, 1, ..., n - 1`.
pub open spec fn in_order(n: nat) -> Seq<usize> {
    Seq::new(n, |i: int| i as usize)
}

/// How many copies of the last back card are added: the difference of the two counts,
/// computed on `i32` with wrap-around; none when there are no back cards.
pub open spec fn duplicate_count(front_len: usize, back_len: usize) -> int {
    let difference = (front_len as i32).wrapping_sub(back_len as i32);
    if difference > 0 && back_len > 0 {
        difference as int
    } else {
        0
    }
}

/// The back cards in print order: all of them, then copies of the last one until the
/// backs match the fronts.
pub open spec fn back_order(front_len: usize, back_len: usize) -> Seq<usize> {
    Seq::new(
        (back_len + duplicate_count(front_len, back_len)) as nat,
        |i: int| if i < back_len { i as usize } else { (back_len - 1) as usize },
    )
}

/// The pages of the document: front and back pages alternate while both last, then the
/// remaining front pages follow; back pages past the last front page are left out.
pub open spec fn interleaved(
    fronts: Seq<Seq<Seq<Option<usize>>>>,
    backs: Seq<Seq<Seq<Option<usize>>>>,
) -> Seq<(CardSide, Seq<Seq<Option<usize>>>)> {
    let m = if fronts.len() <= backs.len() { fronts.len() } else { backs.len() };
    Seq::new(
        m + fronts.len(),
        |j: int|
            if j < 2 * m {
                if j % 2 == 0 {
                    (CardSide::Front, fronts[j / 2])
                } else {
                    (CardSide::Back, backs[j / 2])
                }
            } else {
                (CardSide::Front, fronts[j - m])
            },
    )
}

/// The page plan for `front_len` front cards and `back_len` back cards on
/// `side` x `side` grids (see `grouped`).
pub open spec fn planned_pages(front_len: usize, back_len: usize, side: nat) -> Seq<
    (CardSide, Seq<Seq<Option<usize>>>),
> {
    interleaved(
        grouped(in_order(front_len as nat), side),
        mirrored(grouped(back_order(front_len, back_len), side)),
    )
}

/// The plan's pages as plain values.
pub open spec fn plan_view(pages: Seq<PagePlan>) -> Seq<(CardSide, Seq<Seq<Option<usize>>>)> {
    Seq::new(pages.len(), |j: int| (pages[j].side, rows_of(pages[j].cells@)))
}

/// The indices `0..n` in order.
fn index_list(n: usize) -> (v: Vec<usize>)
    ensures
        v@ == in_order(n as nat),
{
    let mut v: Vec<usize> = Vec::new();
    let mut i: usize = 0;
    while i < n
        invariant
            i <= n,
            v@ == in_order(i as nat),
        decreases n - i,
    {
        v.push(i);
        i = i + 1;
        proof {
            assert(v@ =~= in_order(i as nat));
        }
    }
    v
}

/// The back card indices in print order (see `back_order`).
pub fn back_card_order(front_len: usize, back_len: usize) -> (v: Vec<usize>)
    requires
        back_len + duplicate_count(front_len, back_len) <= usize::MAX,
    ensures
        v@ == back_order(front_len, back_len),
{
    let mut v = index_list(back_len);
    let difference: i32 = (front_len as i32).wrapping_sub(back_len as i32);
    if difference > 0 && back_len > 0 {
        let last = back_len - 1;
        let mut k: i32 = 0;
        while k < difference
            invariant
                0 <= k <= difference,
                difference == duplicate_count(front_len, back_len),
                back_len + difference <= usize::MAX,
                last == back_len - 1,
                v@.len() == back_len + k,
                forall|i: int| 0 <= i < v@.len() ==> #[trigger] v@[i] == (if i < back_len { i as usize } else { last }),
            decreases difference - k,
        {
            v.push(last);
            k = k + 1;
        }
    }
    assert(v@ =~= back_order(front_len, back_len));
    v
}

/// Lays out the document: front pages and (mirrored) back pages alternate, then the
/// remaining front pages follow.
pub fn plan_pages(front_len: usize, back_len: usize, side_size: usize) -> (pages: Vec<PagePlan>)
    requires
        back_len + duplicate_count(front_len, back_len) <= usize::MAX,
    ensures
        plan_view(pages@) == planned_pages(front_len, back_len, side_size as nat),
{
    let front_pages = group_images(index_list(front_len), side_size);
    let back_pages = align_back_cards(group_images(back_card_order(front_len, back_len), side_size));
    let ghost fronts = grid_of(front_pages@);
    let ghost backs = grid_of(back_pages@);
    let ghost target = interleaved(fronts, backs);
    let nf = front_pages.len();
    let nb = back_pages.len();
    let m = if nf <= nb { nf } else { nb };
    let mut front_rest = reverse_row(front_pages);
    let mut back_rest = reverse_row(back_pages);
    let mut pages: Vec<PagePlan> = Vec::new();
    let mut j: usize = 0;
    while j < m
        invariant
            m <= nf,
            m <= nb,
            m == (if nf <= nb { nf } else { nb }),
            fronts.len() == nf,
            backs.len() == nb,
            target == interleaved(fronts, backs),
            j <= m,
            front_rest@.len() == nf - j,
            back_rest@.len() == nb - j,
            forall|i: int| 0 <= i < front_rest@.len() ==> rows_of((#[trigger] front_rest@[i])@) == fronts[nf - 1 - i],
            forall|i: int| 0 <= i < back_rest@.len() ==> rows_of((#[trigger] back_rest@[i])@) == backs[nb - 1 - i],
            pages@.len() == 2 * j,
            forall|k: int| 0 <= k < pages@.len() ==> #[trigger] plan_view(pages@)[k] == target[k],
        decreases m - j,
    {
        let front = front_rest.pop().unwrap();
        let back = back_rest.pop().unwrap();
        let ghost before = pages@;
        pages.push(PagePlan { side: CardSide::Front, cells: front });
        pages.push(PagePlan { side: CardSide::Back, cells: back });
        proof {
            assert forall|k: int| 0 <= k < pages@.len() implies #[trigger] plan_view(pages@)[k] == target[k] by {
                if k < before.len() {
                    assert(plan_view(pages@)[k] == plan_view(before)[k]);
                }
            }
        }
        j = j + 1;
    }
    while front_rest.len() > 0
        invariant
            m <= nf,
            fronts.len() == nf,
            backs.len() == nb,
            m == (if nf <= nb { nf } else { nb }),
            target == interleaved(fronts, backs),
            front_rest@.len() <= nf - m,
            forall|i: int| 0 <= i < front_rest@.len() ==> rows_of((#[trigger] front_rest@[i])@) == fronts[nf - 1 - i],
            pages@.len() == m + nf - front_rest@.len(),
            forall|k: int| 0 <= k < pages@.len() ==> #[trigger] plan_view(pages@)[k] == target[k],
        decreases front_rest.len(),
    {
        let front = front_rest.pop().unwrap();
        let ghost before = pages@;
        pages.push(PagePlan { side: CardSide::Front, cells: front });
        proof {
            assert forall|k: int| 0 <= k < pages@.len() implies #[trigger] plan_view(pages@)[k] == target[k] by {
                if k < before.len() {
                    assert(plan_view(pages@)[k] == plan_view(before)[k]);
                }
            }
        }
    }
    assert(plan_view(pages@) =~= target);
    pages
}


/// The card printed on the back of front card `i`: back card `i`, or the last back card
/// when there are fewer back cards than front cards.
pub open spec fn back_of(i: int, back_len: int) -> int {
    if i < back_len {
        i
    } else {
        back_len - 1
    }
}

/// Double-sided printing lines up: when there are back cards (and both counts fit in an
/// `i32`, as the duplication count is computed there), front card `i` sits in cell
/// (row, col) of front page `2 * (i / (s * s))`, and the page right after it is a back page
/// holding `back_of(i)` in cell (row, s - 1 - col), the mirror image of the same spot.
pub proof fn lemma_front_back_pairing(front_len: usize, back_len: usize, side: nat, i: int)
    requires
        side >= 1,
        0 < back_len <= i32::MAX,
        front_len <= i32::MAX,
        0 <= i < front_len,
    ensures
        ({
            let plan = planned_pages(front_len, back_len, side);
            let (page, row, col) = position_of(i, side as int);
            &&& 2 * page + 1 < plan.len()
            &&& plan[2 * page].0 == CardSide::Front
            &&& plan[2 * page].1[row][col] == Some(i as usize)
            &&& plan[2 * page + 1].0 == CardSide::Back
            &&& plan[2 * page + 1].1[row][side - 1 - col] == Some(back_of(i, back_len as int) as usize)
        }),
{
    let s = side as int;
    let ss = s * s;
    let f = front_len as int;
    let b = back_len as int;
    let fitems = in_order(front_len as nat);
    let bitems = back_order(front_len, back_len);
    let fronts = paged(fitems, side);
    let backs = mirrored(paged(bitems, side));
    let (page, row, col) = position_of(i, s);
    lemma_position(i, s);
    assert(ss >= 1) by (nonlinear_arith)
        requires
            s >= 1,
            ss == s * s,
    ;
    // the back cards, duplicates included, are at least as many as the front cards
    assert(duplicate_count(front_len, back_len) == if f > b { f - b } else { 0 });
    let blen = bitems.len() as int;
    assert(blen >= f);
    // so there are at least as many back pages as front pages
    lemma_div_is_ordered(f - 1, blen - 1, ss);
    lemma_div_is_ordered(i, f - 1, ss);
    assert(fronts.len() == page_count(f as nat, ss as nat));
    assert(page < fronts.len());
    assert(fronts.len() <= backs.len());
    let plan = planned_pages(front_len, back_len, side);
    assert(plan == interleaved(fronts, backs));
    assert(2 * page + 1 < 2 * fronts.len());
    assert((2 * page) % 2 == 0 && (2 * page) / 2 == page);
    assert((2 * page + 1) % 2 == 1 && (2 * page + 1) / 2 == page);
    assert(plan[2 * page] == (CardSide::Front, fronts[page]));
    assert(plan[2 * page + 1] == (CardSide::Back, backs[page]));
    assert(fronts[page][row][col] == cell_of(fitems, side, page, row, col));
    let brow = paged(bitems, side)[page][row];
    assert(brow.len() == s);
    assert(backs[page][row] == brow.reverse());
    assert(backs[page][row][s - 1 - col] == brow[col]);
    assert(brow[col] == cell_of(bitems, side, page, row, col));
}


/// With back cards (both counts fitting in an `i32`) there are at least as many back pages
/// as front pages.
proof fn lemma_backs_cover_fronts(front_len: usize, back_len: usize, side: nat)
    requires
        side >= 1,
        0 < back_len <= i32::MAX,
        front_len <= i32::MAX,
    ensures
        paged(in_order(front_len as nat), side).len() <= paged(back_order(front_len, back_len), side).len(),
{
    let ss = (side * side) as int;
    assert(ss >= 1) by (nonlinear_arith)
        requires
            side >= 1,
            ss == side * side,
    ;
    let f = front_len as int;
    assert(duplicate_count(front_len, back_len) == if front_len > back_len { f - back_len } else { 0 });
    let blen = back_order(front_len, back_len).len() as int;
    assert(blen >= f);
    if f > 0 {
        lemma_div_is_ordered(f - 1, blen - 1, ss);
    }
}

/// The index, in the document, of front page `page`: front pages alternate with back pages
/// when there are back cards, and follow one another when there are none.
pub open spec fn front_page_position(page: int, back_len: usize) -> int {
    if back_len == 0 {
        page
    } else {
        2 * page
    }
}

/// Every front card is printed: front card `i` sits in cell (row, col) = `position_of(i)` of
/// front page `page`, which is page `front_page_position(page)` of the document. This holds
/// with or without back cards (with back cards, both counts must fit in an `i32`, where the
/// number of copies of the last back card is computed).
pub proof fn lemma_front_card_printed(front_len: usize, back_len: usize, side: nat, i: int)
    requires
        side >= 1,
        0 <= i < front_len,
        back_len > 0 ==> front_len <= i32::MAX && back_len <= i32::MAX,
    ensures
        ({
            let plan = planned_pages(front_len, back_len, side);
            let (page, row, col) = position_of(i, side as int);
            let q = front_page_position(page, back_len);
            &&& 0 <= q < plan.len()
            &&& plan[q].0 == CardSide::Front
            &&& plan[q].1[row][col] == Some(i as usize)
        }),
{
    let plan = planned_pages(front_len, back_len, side);
    let (page, row, col) = position_of(i, side as int);
    if back_len > 0 {
        lemma_front_back_pairing(front_len, back_len, side, i);
        lemma_position(i, side as int);
    } else {
        let s = side as int;
        let ss = s * s;
        let fitems = in_order(front_len as nat);
        let fronts = paged(fitems, side);
        let plan = planned_pages(front_len, back_len, side);
        let (page, row, col) = position_of(i, s);
        lemma_position(i, s);
        lemma_paged_position(fitems, side, i);
        assert(duplicate_count(front_len, back_len) == 0);
        assert(back_order(front_len, back_len).len() == 0);
        let backs = mirrored(paged(back_order(front_len, back_len), side));
        assert(backs.len() == 0);
        assert(plan.len() == fronts.len());
        assert(page < fronts.len());
        assert(plan[page] == (CardSide::Front, fronts[page]));
        assert(fitems[i] == i as usize);
        assert(plan[page].1[row][col] == Some(i as usize));
    }
}

/// Every front card is printed only once: a front page's cell (r, c) that holds front card
/// `i` is the cell `position_of(i)` of the front page whose position that page has (see
/// `front_page_position`), so no card is shown twice or in another place.
pub proof fn lemma_front_cell_holds_its_card(
    front_len: usize,
    back_len: usize,
    side: nat,
    j: int,
    r: int,
    c: int,
    i: usize,
)
    requires
        side >= 1,
        back_len > 0 ==> front_len <= i32::MAX && back_len <= i32::MAX,
        0 <= j < planned_pages(front_len, back_len, side).len(),
        planned_pages(front_len, back_len, side)[j].0 == CardSide::Front,
        0 <= r < planned_pages(front_len, back_len, side)[j].1.len(),
        0 <= c < planned_pages(front_len, back_len, side)[j].1[r].len(),
        planned_pages(front_len, back_len, side)[j].1[r][c] == Some(i),
    ensures
        i < front_len,
        ({
            let (page, row, col) = position_of(i as int, side as int);
            &&& front_page_position(page, back_len) == j
            &&& row == r
            &&& col == c
        }),
{
    let s = side as int;
    let ss = s * s;
    assert(ss >= 1) by (nonlinear_arith)
        requires
            s >= 1,
            ss == s * s,
    ;
    let fitems = in_order(front_len as nat);
    let fronts = paged(fitems, side);
    let backs = mirrored(paged(back_order(front_len, back_len), side));
    let plan = planned_pages(front_len, back_len, side);
    let m = if fronts.len() <= backs.len() { fronts.len() } else { backs.len() };
    if back_len > 0 {
        lemma_backs_cover_fronts(front_len, back_len, side);
        assert(m == fronts.len());
    } else {
        assert(duplicate_count(front_len, back_len) == 0);
        assert(backs.len() == 0);
    }
    let p = if j < 2 * m { j / 2 } else { j - m };
    if j < 2 * m {
        assert(j % 2 == 0);
        assert(j == 2 * p);
    }
    assert(plan[j].1 == fronts[p]);
    assert(0 <= r < s && 0 <= c < s);
    let idx = p * ss + r * s + c;
    assert(fronts[p][r][c] == cell_of(fitems, side, p, r, c));
    assert(0 <= idx < fitems.len());
    assert(i == idx);
    assert(0 <= r * s + c < ss) by (nonlinear_arith)
        requires
            0 <= r < s,
            0 <= c < s,
            ss == s * s,
    ;
    lemma_fundamental_div_mod_converse(idx, ss, p, r * s + c);
    lemma_fundamental_div_mod_converse(r * s + c, s, r, c);
    assert(idx == (p * s + r) * s + c) by (nonlinear_arith)
        requires
            idx == p * ss + r * s + c,
            ss == s * s,
    ;
    lemma_fundamental_div_mod_converse(idx, s, p * s + r, c);
}


/// How many pages the document has: one page per `side * side` front cards (rounded up),
/// and as many back pages again when there are back cards (both counts fitting in an `i32`).
pub proof fn lemma_plan_length(front_len: usize, back_len: usize, side: nat)
    requires
        side >= 1,
        back_len > 0 ==> front_len <= i32::MAX && back_len <= i32::MAX,
    ensures
        planned_pages(front_len, back_len, side).len() == if back_len == 0 {
            page_count(front_len as nat, side * side)
        } else {
            2 * page_count(front_len as nat, side * side)
        },
{
    let fronts = paged(in_order(front_len as nat), side);
    let backs = mirrored(paged(back_order(front_len, back_len), side));
    if back_len > 0 {
        lemma_backs_cover_fronts(front_len, back_len, side);
    } else {
        assert(duplicate_count(front_len, back_len) == 0);
        assert(backs.len() == 0);
    }
}

} // verus!
