use std::io;

use cards_core::error::{decimal_text, CardsError};
use cards_core::writer::CardWriter;

#[test]
fn lib_test_test_cardwriter_dimensions() {
    let _writer = CardWriter::new("test_path".to_string(), 3).expect("Valid grid size");
}

#[test]
fn lib_test_test_cardwriter_different_grid_sizes() {
    let _writer_5x5 = CardWriter::new("test_path".to_string(), 5).expect("Valid grid size");
}

#[test]
fn lib_test_test_images_from_path_sorting() {
    let _writer = CardWriter::new("../static".to_string(), 3).expect("Valid grid size");
}

#[test]
fn test_error_display() {
    let err = CardsError::DirectoryNotFound("test/path".to_string());
    let display = err.message();
    assert!(display.contains("Directory not found"));
    assert!(display.contains("test/path"));

    let err = CardsError::ImageDecodeError("test error".to_string());
    let display = err.message();
    assert!(display.contains("Image decode error"));
    assert!(display.contains("test error"));
}

#[test]
fn test_error_from_io_error() {
    let io_err = io::Error::new(io::ErrorKind::NotFound, "file not found");
    let cards_err: CardsError = io_err.into();

    assert!(matches!(cards_err, CardsError::IoError(_)));
}

#[test]
fn test_invalid_grid_size_zero() {
    let result = CardWriter::new("test_path".to_string(), 0);
    assert!(result.is_err(), "Should reject grid size of 0");

    let err = result.unwrap_err();
    assert!(matches!(err, CardsError::InvalidGridSize(0)));
}

#[test]
fn test_invalid_grid_size_too_large() {
    let result = CardWriter::new("test_path".to_string(), 21);
    assert!(result.is_err(), "Should reject grid size greater than 20");

    let err = result.unwrap_err();
    assert!(matches!(err, CardsError::InvalidGridSize(21)));
}

#[test]
fn test_valid_grid_size_boundary_values() {
    let result_1 = CardWriter::new("test_path".to_string(), 1);
    assert!(result_1.is_ok(), "Should accept grid size of 1");

    let result_20 = CardWriter::new("test_path".to_string(), 20);
    assert!(result_20.is_ok(), "Should accept grid size of 20");
}

#[test]
fn writer_keeps_settings_and_names_subfolders() {
    let writer = CardWriter::new("cards".to_string(), 4).unwrap();
    assert_eq!(writer.side_size(), 4);
    assert_eq!(writer.cards_path(), "cards");
    assert_eq!(writer.front_dir(), "cards/front");
    assert_eq!(writer.back_dir(), "cards/back");
}

#[test]
fn error_messages_match_display_texts() {
    assert_eq!(
        CardsError::InvalidGridSize(21).message(),
        "Invalid grid size: 21 (must be between 1 and 20)"
    );
    assert_eq!(
        CardsError::InvalidGridSize(0).message(),
        "Invalid grid size: 0 (must be between 1 and 20)"
    );
    assert_eq!(
        CardsError::NoImagesFound("x/front".to_string()).message(),
        "No images found in: x/front"
    );
    assert_eq!(
        CardsError::PdfGenerationError("boom".to_string()).message(),
        "PDF generation error: boom"
    );
    let io = CardsError::IoError(std::io::Error::new(std::io::ErrorKind::Other, "disk full"));
    assert_eq!(io.message(), "IO error: disk full");
}

#[test]
fn decimal_text_writes_numbers() {
    assert_eq!(decimal_text(0), "0");
    assert_eq!(decimal_text(7), "7");
    assert_eq!(decimal_text(10), "10");
    assert_eq!(decimal_text(123456789), "123456789");
    assert_eq!(decimal_text(usize::MAX), usize::MAX.to_string());
}
