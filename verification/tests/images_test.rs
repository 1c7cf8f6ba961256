use cards_core::error::CardsError;
use cards_core::images::{
    card_file_indices, count_card_images, has_archive_image_extension, has_image_extension,
    is_card_image_entry, load_card_images, sort_by_name, sorted_card_images, DirEntryInfo,
};
use cards_core::writer::CardImage;

fn card(name: &str, tag: u8) -> CardImage {
    CardImage { name: name.to_string(), data: vec![tag] }
}

fn entry(name: &str, is_file: bool) -> DirEntryInfo {
    DirEntryInfo { file_name: name.to_string(), is_file }
}

#[test]
fn image_extensions_follow_path_rules() {
    assert!(has_image_extension("card.png"));
    assert!(has_image_extension("card.jpg"));
    assert!(has_image_extension("a.b.jpeg"));
    assert!(has_image_extension("..png"));
    assert!(!has_image_extension(".png"));
    assert!(!has_image_extension("card.PNG"));
    assert!(!has_image_extension("card.gif"));
    assert!(!has_image_extension("png"));
    assert!(!has_image_extension("card.png.txt"));
    assert!(!has_image_extension(""));
}

#[test]
fn archive_extensions_ignore_case_and_take_the_last_part() {
    assert!(has_archive_image_extension("card.PNG"));
    assert!(has_archive_image_extension("card.JpEg"));
    assert!(has_archive_image_extension("png"));
    assert!(has_archive_image_extension(".jpg"));
    assert!(!has_archive_image_extension("card.gif"));
    assert!(!has_archive_image_extension("card.png.bak"));
}

#[test]
fn only_image_files_are_counted() {
    let entries = vec![
        entry("a.png", true),
        entry("b.jpg", true),
        entry("folder.png", false),
        entry("notes.txt", true),
        entry("c.jpeg", true),
    ];
    assert_eq!(count_card_images(&entries), 3);
    assert!(is_card_image_entry(&entries[0]));
    assert!(!is_card_image_entry(&entries[2]));
    assert_eq!(count_card_images(&vec![]), 0);
}

#[test]
fn sorting_orders_by_name_bytes_and_keeps_ties_in_order() {
    let sorted = sort_by_name(vec![card("b.png", 1), card("a.png", 2), card("B.png", 3), card("a.png", 4), card("ä.png", 5)]);
    let names: Vec<&str> = sorted.iter().map(|c| c.name.as_str()).collect();
    assert_eq!(names, vec!["B.png", "a.png", "a.png", "b.png", "ä.png"]);
    let tags: Vec<u8> = sorted.iter().map(|c| c.data[0]).collect();
    assert_eq!(tags, vec![3, 2, 4, 1, 5]);
}

#[test]
fn sorting_matches_std_string_order() {
    let names = ["card_10.png", "card_2.png", "card_1.png", "Z.jpg", "zz", "z", "", "é", "e"];
    let mut expected: Vec<String> = names.iter().map(|s| s.to_string()).collect();
    expected.sort();
    let sorted = sort_by_name(names.iter().map(|n| card(n, 0)).collect());
    let got: Vec<String> = sorted.into_iter().map(|c| c.name).collect();
    assert_eq!(got, expected);
}

#[test]
fn empty_folder_is_an_error() {
    match sorted_card_images(vec![], "cards/front") {
        Err(CardsError::NoImagesFound(path)) => assert_eq!(path, "cards/front"),
        _ => panic!("expected NoImagesFound"),
    }
    let ok = sorted_card_images(vec![card("b.png", 0), card("a.png", 1)], "x").unwrap();
    assert_eq!(ok[0].name, "a.png");
    assert_eq!(ok[1].name, "b.png");
}

#[test]
fn loaded_images_are_the_counted_files_sorted() {
    let listing = vec![
        entry("b.png", true),
        entry("notes.txt", true),
        entry("dir.png", false),
        entry("a.jpg", true),
    ];
    assert_eq!(card_file_indices(&listing), vec![0, 3]);
    let loaded = load_card_images(&listing, vec![vec![2], vec![1]], "cards/front").unwrap();
    assert_eq!(loaded.len(), count_card_images(&listing));
    let names: Vec<&str> = loaded.iter().map(|c| c.name.as_str()).collect();
    assert_eq!(names, vec!["a.jpg", "b.png"]);
    assert_eq!(loaded[0].data, vec![1]);
    assert_eq!(loaded[1].data, vec![2]);
}

#[test]
fn a_listing_without_images_loads_nothing() {
    let listing = vec![entry("readme.md", true)];
    match load_card_images(&listing, Vec::new(), "cards/back") {
        Err(CardsError::NoImagesFound(p)) => assert_eq!(p, "cards/back"),
        other => panic!("unexpected {:?}", other.map(|v| v.len())),
    }
}
