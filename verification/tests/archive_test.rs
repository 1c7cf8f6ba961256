use std::io::{Cursor, Write};

use cards_core::archive::{archive_entry_target, extract_images_from_zip, ArchiveFolder};
use cards_core::error::CardsError;
use cards_core::web::CardsWasmApp;
use zip::write::SimpleFileOptions;
use zip::ZipWriter;

fn zip_of(files: &[(&str, &[u8])], dirs: &[&str]) -> Vec<u8> {
    let mut writer = ZipWriter::new(Cursor::new(Vec::new()));
    let options = SimpleFileOptions::default().compression_method(zip::CompressionMethod::Stored);
    for d in dirs {
        writer.add_directory(*d, options).unwrap();
    }
    for (name, data) in files {
        writer.start_file(*name, options).unwrap();
        writer.write_all(data).unwrap();
    }
    writer.finish().unwrap().into_inner()
}

#[test]
fn entries_are_routed_by_their_folder() {
    assert!(matches!(archive_entry_target("cards/front/a.png", false), Some((ArchiveFolder::Front, ref n)) if n == "a.png"));
    assert!(matches!(archive_entry_target("back/b.JPG", false), Some((ArchiveFolder::Back, ref n)) if n == "b.JPG"));
    assert!(matches!(archive_entry_target("x/other/c.jpeg", false), Some((ArchiveFolder::Other, _))));
    assert!(archive_entry_target("a.png", false).is_none());
    assert!(archive_entry_target("front/notes.txt", false).is_none());
    assert!(archive_entry_target("front/a.png", true).is_none());
    assert!(matches!(archive_entry_target("/a.png", false), Some((ArchiveFolder::Other, _))));
}

#[test]
fn archive_images_are_read_and_sorted() {
    let bytes = zip_of(
        &[
            ("set/front/b.png", b"B"),
            ("set/front/a.png", b"A"),
            ("set/back/z.jpg", b"Z"),
            ("set/readme.txt", b"hello"),
            ("set/other/c.png", b"C"),
        ],
        &["set/", "set/front/"],
    );
    let (front, back) = extract_images_from_zip(bytes).expect("readable archive");
    let names: Vec<&str> = front.iter().map(|c| c.name.as_str()).collect();
    assert_eq!(names, vec!["a.png", "b.png"]);
    assert_eq!(front[0].data, b"A".to_vec());
    assert_eq!(back.len(), 1);
    assert_eq!(back[0].name, "z.jpg");
}

#[test]
fn archive_without_front_images_is_refused() {
    let bytes = zip_of(&[("back/a.png", b"A")], &[]);
    assert_eq!(extract_images_from_zip(bytes).unwrap_err(), "No images found in front/ folder");
}

#[test]
fn garbage_is_not_an_archive() {
    let err = extract_images_from_zip(vec![1, 2, 3, 4]).unwrap_err();
    assert!(err.starts_with("Invalid ZIP file: "), "{}", err);
}

#[test]
fn page_state_follows_dropped_archives() {
    let mut app = CardsWasmApp::new();
    assert_eq!(app.grid_size, 3);
    app.process_zip(zip_of(&[("front/a.png", b"A"), ("back/b.png", b"B")], &[]));
    assert!(app.zip_loaded);
    assert_eq!((app.front_count, app.back_count), (1, 1));
    assert!(app.error_message.is_none());

    app.process_zip(vec![0, 0]);
    assert!(!app.zip_loaded);
    assert!(app.front_images.is_empty());
    assert!(app.error_message.as_deref().unwrap().starts_with("Failed to process ZIP: Invalid ZIP file: "));

    app.start_generation();
    assert!(app.is_processing);
    assert!(app.error_message.is_none());
    let download = app.generation_done(Ok(vec![1, 2, 3]));
    assert_eq!(download, Some(vec![1, 2, 3]));
    app.download_done(Err("blocked".to_string()));
    assert_eq!(app.error_message.as_deref(), Some("Download failed: blocked"));
    assert!(!app.is_processing);

    app.start_generation();
    let download = app.generation_done(Ok(vec![7]));
    assert_eq!(download, Some(vec![7]));
    app.download_done(Ok(()));
    assert_eq!(app.success_message.as_deref(), Some("PDF generated successfully"));
    assert!(app.error_message.is_none());

    app.start_generation();
    let download = app.generation_done(Err(CardsError::InvalidGridSize(0)));
    assert!(download.is_none());
    assert_eq!(
        app.error_message.as_deref(),
        Some("PDF generation failed: Invalid grid size: 0 (must be between 1 and 20)")
    );
    assert!(app.success_message.is_none());
    assert!(!app.is_processing);
}

#[test]
fn a_failed_archive_drops_images_but_keeps_counts() {
    let mut app = CardsWasmApp::new();
    app.process_zip(zip_of(&[("front/a.png", b"A"), ("front/b.png", b"B")], &[]));
    assert_eq!(app.front_count, 2);
    app.show_archive(Err("broken".to_string()));
    assert!(app.front_images.is_empty());
    assert_eq!(app.front_count, 2);
    assert!(!app.zip_loaded);
    assert_eq!(app.error_message.as_deref(), Some("Failed to process ZIP: broken"));
}

#[test]
fn page_controls_follow_the_loaded_archive() {
    let mut app = CardsWasmApp::new();
    assert!(!app.can_generate());
    app.file_dropped(None);
    assert!(!app.zip_loaded);
    app.file_dropped(Some(zip_of(&[("front/a.png", b"A"), ("front/b.png", b"B"), ("back/x.png", b"X")], &[])));
    assert!(app.can_generate());
    let s = app.summary();
    assert_eq!((s.duplicated, s.front_pages, s.back_pages, s.total_pages), (Some(1), 1, 1, 2));
    app.success_message = Some("PDF generated successfully".to_string());
    app.set_grid_size(1);
    assert_eq!(app.grid_size, 1);
    assert!(app.success_message.is_none());
    let s = app.summary();
    assert_eq!((s.front_pages, s.back_pages, s.total_pages), (2, 2, 4));
    app.set_grid_size(25);
    assert_eq!(app.grid_size, 20);
}
