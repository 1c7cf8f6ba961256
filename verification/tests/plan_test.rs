use cards_core::plan::{back_card_order, plan_pages, CardSide};

#[test]
fn backs_repeat_the_last_card_up_to_the_fronts() {
    assert_eq!(back_card_order(5, 2), vec![0, 1, 1, 1, 1]);
    assert_eq!(back_card_order(2, 5), vec![0, 1, 2, 3, 4]);
    assert_eq!(back_card_order(3, 3), vec![0, 1, 2]);
    assert_eq!(back_card_order(4, 0), Vec::<usize>::new());
}

#[test]
fn fronts_and_backs_alternate() {
    // 11 fronts, 1 back card, 3x3: two sheets, each a front page then its back page.
    let pages = plan_pages(11, 1, 3);
    assert_eq!(pages.len(), 4);
    assert_eq!(pages[0].side, CardSide::Front);
    assert_eq!(pages[1].side, CardSide::Back);
    assert_eq!(pages[2].side, CardSide::Front);
    assert_eq!(pages[3].side, CardSide::Back);
    assert_eq!(pages[0].cells[0], vec![Some(0), Some(1), Some(2)]);
    // every back cell shows the single back card, mirrored
    assert_eq!(pages[1].cells[0], vec![Some(0), Some(0), Some(0)]);
    assert_eq!(pages[3].cells[0], vec![None, Some(0), Some(0)]);
    assert_eq!(pages[2].cells[0], vec![Some(9), Some(10), None]);
}

#[test]
fn back_card_sits_behind_its_front_card() {
    let pages = plan_pages(7, 7, 3);
    // front card 4 is at row 1, column 1 of the first page; its back at the mirrored column
    assert_eq!(pages[0].cells[1][1], Some(4));
    assert_eq!(pages[1].cells[1][3 - 1 - 1], Some(4));
    // front card 5 at row 1 column 2; back at column 0
    assert_eq!(pages[0].cells[1][2], Some(5));
    assert_eq!(pages[1].cells[1][0], Some(5));
}

#[test]
fn without_backs_only_front_pages_are_made() {
    let pages = plan_pages(10, 0, 3);
    assert_eq!(pages.len(), 2);
    assert!(pages.iter().all(|p| p.side == CardSide::Front));
}

#[test]
fn extra_back_pages_are_left_out() {
    let pages = plan_pages(2, 20, 2);
    assert_eq!(pages.len(), 2);
    assert_eq!(pages[0].side, CardSide::Front);
    assert_eq!(pages[1].side, CardSide::Back);
    assert_eq!(pages[1].cells[0], vec![Some(1), Some(0)]);
    assert_eq!(pages[1].cells[1], vec![Some(3), Some(2)]);
}

#[test]
fn no_cards_no_pages() {
    assert!(plan_pages(0, 0, 3).is_empty());
    assert!(plan_pages(0, 4, 3).is_empty());
}

#[test]
fn grid_size_zero_gives_one_front_and_one_back_page() {
    let pages = plan_pages(3, 1, 0);
    assert_eq!(pages.len(), 2);
    assert_eq!(pages[0].side, CardSide::Front);
    assert_eq!(pages[0].cells, vec![vec![Some(0), Some(1), Some(2)]]);
    assert_eq!(pages[1].side, CardSide::Back);
    assert_eq!(pages[1].cells, vec![vec![Some(0), Some(0), Some(0)]]);
}
