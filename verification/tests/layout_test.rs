use cards_core::layout::{align_back_cards, group_images, reverse_row};
use cards_core::writer::CardWriter;

fn names(n: usize) -> Vec<String> {
    (0..n).map(|i| format!("image_{}.png", i)).collect()
}

#[test]
fn test_group_images_complete_page() {
    let writer = CardWriter::new("test_path".to_string(), 3).unwrap();

    let images: Vec<String> = names(9);
    let pages = group_images(images, writer.side_size());

    assert_eq!(pages.len(), 1);
    assert_eq!(pages[0].len(), 3);
    assert_eq!(pages[0][0].len(), 3);
}

#[test]
fn test_group_images_partial_page() {
    let writer = CardWriter::new("test_path".to_string(), 3).unwrap();

    let images: Vec<String> = names(5);
    let pages = group_images(images, writer.side_size());

    assert_eq!(pages.len(), 1);
    assert_eq!(pages[0].len(), 3);

    let mut some_count = 0;
    let mut none_count = 0;
    for row in &pages[0] {
        for cell in row {
            if cell.is_some() {
                some_count += 1;
            } else {
                none_count += 1;
            }
        }
    }
    assert_eq!(some_count, 5);
    assert_eq!(none_count, 4);
}

#[test]
fn test_group_images_multiple_pages() {
    let writer = CardWriter::new("test_path".to_string(), 3).unwrap();

    let images: Vec<String> = names(15);
    let pages = group_images(images, writer.side_size());

    assert_eq!(pages.len(), 2);
    assert_eq!(pages[0].len(), 3);
    assert_eq!(pages[1].len(), 3);
}

#[test]
fn test_align_back_cards() {
    let _writer = CardWriter::new("test_path".to_string(), 3).unwrap();

    let pages = vec![vec![
        vec![Some("1".to_string()), Some("2".to_string()), Some("3".to_string())],
        vec![Some("4".to_string()), Some("5".to_string()), Some("6".to_string())],
        vec![Some("7".to_string()), Some("8".to_string()), Some("9".to_string())],
    ]];

    let aligned = align_back_cards(pages);

    assert_eq!(aligned[0][0][0], Some("3".to_string()));
    assert_eq!(aligned[0][0][1], Some("2".to_string()));
    assert_eq!(aligned[0][0][2], Some("1".to_string()));

    assert_eq!(aligned[0][1][0], Some("6".to_string()));
    assert_eq!(aligned[0][1][1], Some("5".to_string()));
    assert_eq!(aligned[0][1][2], Some("4".to_string()));
}

#[test]
fn group_keeps_reading_order_and_pads_last_page() {
    let pages = group_images((0..11usize).collect(), 3);
    assert_eq!(pages.len(), 2);
    assert_eq!(pages[0], vec![vec![Some(0), Some(1), Some(2)], vec![Some(3), Some(4), Some(5)], vec![Some(6), Some(7), Some(8)]]);
    assert_eq!(pages[1], vec![vec![Some(9), Some(10), None], vec![None, None, None], vec![None, None, None]]);
}

#[test]
fn group_of_nothing_has_no_pages() {
    let pages = group_images(Vec::<u8>::new(), 4);
    assert!(pages.is_empty());
}

#[test]
fn group_one_card_on_one_by_one_grid() {
    let pages = group_images(vec!['a', 'b'], 1);
    assert_eq!(pages, vec![vec![vec![Some('a')]], vec![vec![Some('b')]]]);
}

#[test]
fn group_single_card_fills_rest_with_empty_cells() {
    let pages = group_images(vec![42u32], 3);
    assert_eq!(pages.len(), 1);
    let filled: usize = pages[0].iter().map(|r| r.iter().filter(|c| c.is_some()).count()).sum();
    assert_eq!(filled, 1);
    assert_eq!(pages[0][0][0], Some(42));
}

#[test]
fn aligning_twice_gives_back_the_pages() {
    let pages = group_images((0..7usize).collect(), 3);
    let twice = align_back_cards(align_back_cards(pages.clone()));
    assert_eq!(twice, pages);
}

#[test]
fn aligning_mirrors_partial_rows() {
    let pages = group_images((0..4usize).collect(), 3);
    let aligned = align_back_cards(pages);
    assert_eq!(aligned[0][0], vec![Some(2), Some(1), Some(0)]);
    assert_eq!(aligned[0][1], vec![None, None, Some(3)]);
    assert_eq!(aligned[0][2], vec![None, None, None]);
}

#[test]
fn reverse_row_reverses() {
    assert_eq!(reverse_row(vec![1, 2, 3, 4]), vec![4, 3, 2, 1]);
    assert_eq!(reverse_row(Vec::<i32>::new()), Vec::<i32>::new());
}

#[test]
fn grid_size_zero_puts_everything_in_one_row() {
    let pages = group_images(vec![1u8, 2, 3], 0);
    assert_eq!(pages, vec![vec![vec![Some(1u8), Some(2), Some(3)]]]);
    assert!(group_images(Vec::<u8>::new(), 0).is_empty());
}
