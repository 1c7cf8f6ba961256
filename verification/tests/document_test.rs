use cards_core::document::{add_card_image, PreparedDocument};
use cards_core::error::CardsError;
use cards_core::guides::{grid_guides, GuideLine};
use cards_core::plan::CardSide;
use cards_core::writer::{CardImage, CardWriter};

/// A 1x1 PNG image.
const PNG_1X1: [u8; 68] = [
    0x89, 0x50, 0x4E, 0x47, 0x0D, 0x0A, 0x1A, 0x0A, 0x00, 0x00, 0x00, 0x0D, 0x49, 0x48, 0x44,
    0x52, 0x00, 0x00, 0x00, 0x01, 0x00, 0x00, 0x00, 0x01, 0x08, 0x06, 0x00, 0x00, 0x00, 0x1F,
    0x15, 0xC4, 0x89, 0x00, 0x00, 0x00, 0x0B, 0x49, 0x44, 0x41, 0x54, 0x78, 0x9C, 0x63, 0x60,
    0x00, 0x02, 0x00, 0x00, 0x05, 0x00, 0x01, 0x7A, 0x5E, 0xAB, 0x3F, 0x00, 0x00, 0x00, 0x00,
    0x49, 0x45, 0x4E, 0x44, 0xAE, 0x42, 0x60, 0x82,
];

fn png(name: &str) -> CardImage {
    CardImage { name: name.to_string(), data: PNG_1X1.to_vec() }
}

fn prepare(front: &Vec<CardImage>, back: &Vec<CardImage>, side: usize) -> Result<PreparedDocument, CardsError> {
    CardWriter::prepare_document(front, back, side)
}

#[test]
fn prepared_document_places_every_card() {
    let front = vec![png("a.png"), png("b.png"), png("c.png")];
    let back = vec![png("back.png")];
    let doc = prepare(&front, &back, 2).expect("images decode");
    assert_eq!(doc.side_size, 2);
    assert_eq!(doc.pages.len(), 2);
    assert_eq!(doc.images.len(), 2);
    assert_eq!(doc.pages[0].side, CardSide::Front);
    assert_eq!(doc.images[0].len(), 3);
    assert_eq!(doc.images[1].len(), 3);
    let first = &doc.images[0][0];
    assert_eq!((first.row, first.col, first.index, first.width, first.height), (0, 0, 0, 1, 1));
    let third = &doc.images[0][2];
    assert_eq!((third.row, third.col, third.index), (1, 0, 2));
    // the back of card 0 (top left) is drawn top right
    let back_first = &doc.images[1][0];
    assert_eq!((back_first.row, back_first.col, back_first.index), (0, 0, 0));
    assert_eq!((doc.images[1][1].row, doc.images[1][1].col), (0, 1));
}

#[test]
fn invalid_grid_size_is_refused_before_decoding() {
    let front = vec![CardImage { name: "bad.png".to_string(), data: vec![1, 2, 3] }];
    let r = prepare(&front, &vec![], 0);
    assert!(matches!(r, Err(CardsError::InvalidGridSize(0))));
    let r = prepare(&front, &vec![], 21);
    assert!(matches!(r, Err(CardsError::InvalidGridSize(21))));
}

#[test]
fn first_undecodable_image_is_reported() {
    let front = vec![png("a.png"), CardImage { name: "broken.png".to_string(), data: vec![0, 1, 2, 3] }];
    let back = vec![CardImage { name: "also_broken.png".to_string(), data: vec![9, 9] }];
    match prepare(&front, &back, 3) {
        Err(CardsError::ImageDecodeError(text)) => {
            assert!(text.starts_with("Failed to decode broken.png: \""), "{}", text);
        },
        other => panic!("unexpected: {:?}", other.map(|d| d.pages.len())),
    }
}

#[test]
fn back_images_are_decoded_only_on_used_pages() {
    // the second back page is never printed, so its broken image is not an error
    let front = vec![png("a.png")];
    let back = vec![png("b0.png"), CardImage { name: "b1.png".to_string(), data: vec![0] }];
    let doc = prepare(&front, &back, 1).expect("only used images are decoded");
    assert_eq!(doc.pages.len(), 2);
}

#[test]
fn grid_guides_cover_the_whole_grid() {
    let guides = grid_guides(1);
    assert_eq!(
        guides,
        vec![
            GuideLine::Column(0),
            GuideLine::Crosshair(0, 0),
            GuideLine::Crosshair(0, 1),
            GuideLine::Column(1),
            GuideLine::Crosshair(1, 0),
            GuideLine::Crosshair(1, 1),
            GuideLine::Row(0),
            GuideLine::Row(1),
        ]
    );
    assert_eq!(grid_guides(3).len(), 4 * 6);
    assert_eq!(grid_guides(20).len(), 21 * 23);
}

#[test]
fn document_holds_one_image_per_placed_card() {
    let front = vec![png("a.png"), png("b.png"), png("c.png")];
    let back = vec![png("back.png")];
    let prepared = prepare(&front, &back, 2).expect("images decode");
    let stored = &prepared.doc.resources.xobjects.map;
    let placed: usize = prepared.images.iter().map(|page| page.len()).sum();
    assert_eq!(placed, 6);
    assert_eq!(stored.len(), placed);
    for page in &prepared.images {
        for image in page {
            assert!(stored.contains_key(&image.id));
        }
    }
}

#[test]
fn adding_a_card_image_stores_it_under_its_id() {
    let mut doc = printpdf::PdfDocument::new("t");
    let (id, w, h) = add_card_image(&mut doc, &PNG_1X1).expect("decodes");
    assert_eq!((w, h), (1, 1));
    assert_eq!(doc.resources.xobjects.map.len(), 1);
    assert!(doc.resources.xobjects.map.contains_key(&id));
    assert!(add_card_image(&mut doc, &[1, 2, 3]).is_err());
    assert_eq!(doc.resources.xobjects.map.len(), 1);
}
