use cards_core::error::CardsError;
use cards_core::gui::{generation_summary, CardsApp, GenerationSummary};
use cards_core::images::DirEntryInfo;

fn entry(name: &str) -> DirEntryInfo {
    DirEntryInfo { file_name: name.to_string(), is_file: true }
}

#[test]
fn new_window_defaults() {
    let app = CardsApp::default();
    assert_eq!(app.grid_size, 3);
    assert_eq!(app.output_path.as_deref(), Some("cards.pdf"));
    assert!(app.cards_path.is_none());
    assert!(!app.is_generating);
}

#[test]
fn counts_need_a_chosen_folder() {
    let mut app = CardsApp::default();
    let front = vec![entry("a.png"), entry("b.txt")];
    app.count_cards(Some(&front), None);
    assert_eq!(app.front_count, None);
    app.cards_path = Some("cards".to_string());
    app.count_cards(Some(&front), None);
    assert_eq!(app.front_count, Some(1));
    assert_eq!(app.back_count, None);
}

#[test]
fn generating_needs_both_paths() {
    let mut app = CardsApp::default();
    app.output_path = None;
    assert!(app.generate_pdf().is_none());
    assert!(app.error_message.is_none());
}

#[test]
fn invalid_grid_size_is_reported() {
    let mut app = CardsApp::default();
    app.cards_path = Some("cards".to_string());
    app.grid_size = 0;
    app.success_message = Some("old".to_string());
    assert!(app.generate_pdf().is_none());
    assert_eq!(
        app.error_message.as_deref(),
        Some("Invalid configuration: Invalid grid size: 0 (must be between 1 and 20)")
    );
    assert!(app.success_message.is_none());
    assert!(!app.is_generating);
}

#[test]
fn finished_job_reports_success_or_failure() {
    let mut app = CardsApp::default();
    app.cards_path = Some("cards".to_string());
    let job = app.generate_pdf().expect("valid settings");
    assert!(app.is_generating);
    assert_eq!(job.writer.side_size(), 3);
    assert_eq!(job.output_path, "cards.pdf");
    app.finish_pdf(&job, Ok(()));
    assert_eq!(app.success_message.as_deref(), Some("PDF generated successfully: cards.pdf"));
    assert!(!app.is_generating);

    let job = app.generate_pdf().expect("valid settings");
    app.finish_pdf(&job, Err(CardsError::DirectoryNotFound("cards/front".to_string())));
    assert_eq!(
        app.error_message.as_deref(),
        Some("PDF generation failed: Directory not found: cards/front")
    );
    assert!(app.success_message.is_none());
}

#[test]
fn summary_counts_pages() {
    assert_eq!(
        generation_summary(11, 2, 3),
        GenerationSummary { duplicated: Some(9), front_pages: 2, back_pages: 2, total_pages: 4 }
    );
    assert_eq!(
        generation_summary(9, 9, 3),
        GenerationSummary { duplicated: None, front_pages: 1, back_pages: 1, total_pages: 2 }
    );
    assert_eq!(
        generation_summary(5, 0, 1),
        GenerationSummary { duplicated: None, front_pages: 5, back_pages: 0, total_pages: 5 }
    );
    assert_eq!(generation_summary(0, 0, 20).total_pages, 0);
}

#[test]
fn picking_a_folder_clears_messages_and_recounts() {
    let mut app = CardsApp::default();
    app.error_message = Some("old error".to_string());
    app.success_message = Some("old success".to_string());
    let front = vec![entry("a.png"), entry("b.jpg"), entry("c.gif")];
    let back = vec![entry("x.png")];
    app.choose_folder("cards".to_string(), Some(&front), Some(&back));
    assert_eq!(app.cards_path.as_deref(), Some("cards"));
    assert!(app.error_message.is_none());
    assert!(app.success_message.is_none());
    assert_eq!((app.front_count, app.back_count), (Some(2), Some(1)));
    assert_eq!(
        app.summary(),
        Some(GenerationSummary { duplicated: Some(1), front_pages: 1, back_pages: 1, total_pages: 2 })
    );
}

#[test]
fn settings_changes_clear_success_and_slider_stays_in_range() {
    let mut app = CardsApp::default();
    app.success_message = Some("done".to_string());
    app.set_grid_size(3);
    assert_eq!(app.success_message.as_deref(), Some("done"));
    app.set_grid_size(0);
    assert_eq!(app.grid_size, 1);
    assert!(app.success_message.is_none());
    app.set_grid_size(99);
    assert_eq!(app.grid_size, 20);
    app.success_message = Some("done".to_string());
    app.choose_output("out.pdf".to_string());
    assert_eq!(app.output_path.as_deref(), Some("out.pdf"));
    assert!(app.success_message.is_none());
}

#[test]
fn generating_is_enabled_with_both_paths_and_no_run() {
    let mut app = CardsApp::default();
    assert!(!app.can_generate());
    app.cards_path = Some("cards".to_string());
    assert!(app.can_generate());
    app.is_generating = true;
    assert!(!app.can_generate());
    assert_eq!(app.summary(), None);
}
