use vstd::prelude::*;
use vstd::string::*;
use crate::archive::{archive_result_matches, extract_images_from_zip};
use crate::error::CardsError;
use crate::gui::{
    generation_summary, prefixed_error, slider_grid_size, slider_size, summary_of, GenerationSummary,
    DEFAULT_GRID_SIZE,
};
use crate::layout::page_count;
use crate::writer::valid_grid_size;
use crate::writer::CardImage;

verus! {

/// The state of the browser page: the grid size, the messages shown and the card images
/// of the archive last dropped on it.
#[derive(Debug)]
pub struct CardsWasmApp {
    pub grid_size: usize,
    pub error_message: Option<String>,
    pub success_message: Option<String>,
    pub is_processing: bool,
    pub front_count: usize,
    pub back_count: usize,
    pub zip_loaded: bool,
    pub front_images: Vec<CardImage>,
    pub back_images: Vec<CardImage>,
}

/// The page state after an archive was read with result `r`: its images and counts, or the
/// error message; the grid size stays.
pub open spec fn after_archive(
    before: CardsWasmApp,
    after: CardsWasmApp,
    r: Result<(Vec<CardImage>, Vec<CardImage>), String>,
) -> bool {
    &&& after.grid_size == before.grid_size
    &&& after.success_message is None
    &&& !after.is_processing
    &&& match r {
        Ok((front, back)) => {
            &&& after.front_images == front
            &&& after.back_images == back
            &&& after.front_count == front@.len()
            &&& after.back_count == back@.len()
            &&& after.zip_loaded
            &&& after.error_message is None
        },
        Err(e) => {
            &&& after.front_images@.len() == 0
            &&& after.back_images@.len() == 0
            &&& after.front_count == before.front_count
            &&& after.back_count == before.back_count
            &&& !after.zip_loaded
            &&& after.error_message matches Some(m) && m@ == "Failed to process ZIP: "@ + e@
        },
    }
}

impl CardsWasmApp {
    /// A page with nothing loaded, set to the default grid size.
    pub fn new() -> (app: CardsWasmApp)
        ensures
            app.grid_size == DEFAULT_GRID_SIZE,
            app.error_message is None,
            app.success_message is None,
            !app.is_processing,
            app.front_count == 0,
            app.back_count == 0,
            !app.zip_loaded,
            app.front_images@.len() == 0,
            app.back_images@.len() == 0,
    {
        CardsWasmApp {
            grid_size: DEFAULT_GRID_SIZE,
            error_message: None,
            success_message: None,
            is_processing: false,
            front_count: 0,
            back_count: 0,
            zip_loaded: false,
            front_images: Vec::new(),
            back_images: Vec::new(),
        }
    }

    /// Shows what reading a dropped archive gave: its images and their counts, or the error
    /// (then no images are kept and the counts stay as they were).
    pub fn show_archive(&mut self, r: Result<(Vec<CardImage>, Vec<CardImage>), String>)
        ensures
            after_archive(*old(self), *final(self), r),
    {
        self.error_message = None;
        self.success_message = None;
        match r {
            Ok((front, back)) => {
                self.front_count = front.len();
                self.back_count = back.len();
                self.front_images = front;
                self.back_images = back;
                self.zip_loaded = true;
            },
            Err(e) => {
                self.front_images.clear();
                self.back_images.clear();
                let mut text = String::from_str("Failed to process ZIP: ");
                text.append(e.as_str());
                self.error_message = Some(text);
                self.zip_loaded = false;
            },
        }
        self.is_processing = false;
    }

    /// Reads the card images of a dropped archive (see `extract_images_from_zip`) and shows
    /// their counts, or the error.
    pub fn process_zip(&mut self, zip_bytes: Vec<u8>)
        ensures
            exists|r: Result<(Vec<CardImage>, Vec<CardImage>), String>|
                #[trigger] archive_result_matches(zip_bytes@, r) && after_archive(*old(self), *final(self), r),
    {
        let ghost before = *self;
        self.is_processing = true;
        self.error_message = None;
        self.success_message = None;
        self.front_images.clear();
        self.back_images.clear();
        let r = extract_images_from_zip(zip_bytes);
        let ghost rv = r;
        self.show_archive(r);
        proof {
            assert(after_archive(before, *self, rv));
        }
    }

    /// Starts making a PDF of the loaded images: clears the messages and marks the page busy.
    pub fn start_generation(&mut self)
        ensures
            generation_started(*old(self), *final(self)),
    {
        self.is_processing = true;
        self.error_message = None;
        self.success_message = None;
    }

    /// Takes the result of making the PDF: a failure is shown and ends the attempt with
    /// nothing to download; a document is handed back, unchanged, to be downloaded.
    pub fn generation_done(&mut self, r: Result<Vec<u8>, CardsError>) -> (download: Option<Vec<u8>>)
        ensures
            generation_handled(*old(self), *final(self), r, download),
    {
        match r {
            Ok(bytes) => Some(bytes),
            Err(e) => {
                self.error_message = Some(crate::gui::error_text("PDF generation failed: ", &e));
                self.is_processing = false;
                None
            },
        }
    }

    /// Shows how the download of the PDF went; the attempt is over.
    pub fn download_done(&mut self, d: Result<(), String>)
        ensures
            download_handled(*old(self), *final(self), d),
    {
        match d {
            Ok(()) => {
                self.success_message = Some(String::from_str("PDF generated successfully"));
            },
            Err(e) => {
                let mut text = String::from_str("Download failed: ");
                text.append(e.as_str());
                self.error_message = Some(text);
            },
        }
        self.is_processing = false;
    }

    /// The grid size slider was set to `size`; a new size clears the success message.
    pub fn set_grid_size(&mut self, size: usize)
        ensures
            final(self).grid_size == slider_size(size),
            final(self).grid_size != old(self).grid_size ==> final(self).success_message is None,
            final(self).grid_size == old(self).grid_size ==> final(self).success_message
                == old(self).success_message,
            final(self).error_message == old(self).error_message,
            final(self).is_processing == old(self).is_processing,
            final(self).zip_loaded == old(self).zip_loaded,
            final(self).front_count == old(self).front_count,
            final(self).back_count == old(self).back_count,
            final(self).front_images == old(self).front_images,
            final(self).back_images == old(self).back_images,
    {
        let size = slider_grid_size(size);
        if size != self.grid_size {
            self.grid_size = size;
            self.success_message = None;
        }
    }

    /// Whether generating can start: an archive is loaded and no run is under way.
    pub fn can_generate(&self) -> (b: bool)
        ensures
            b == (self.zip_loaded && !self.is_processing),
    {
        self.zip_loaded && !self.is_processing
    }

    /// The page summary shown for the loaded archive.
    pub fn summary(&self) -> (s: GenerationSummary)
        requires
            valid_grid_size(self.grid_size),
            2 * page_count(self.front_count as nat, (self.grid_size * self.grid_size) as nat) <= usize::MAX,
        ensures
            s == summary_of(self.front_count, self.back_count, self.grid_size),
    {
        proof {
            assert(self.grid_size * self.grid_size <= 400) by (nonlinear_arith)
                requires
                    1 <= self.grid_size <= 20,
            ;
        }
        generation_summary(self.front_count, self.back_count, self.grid_size)
    }

    /// Files were dropped on the page: the first one that came with its bytes is read as an
    /// archive (see `process_zip`); without one nothing changes.
    pub fn file_dropped(&mut self, first_bytes: Option<Vec<u8>>)
        ensures
            first_bytes is None ==> *final(self) == *old(self),
            first_bytes matches Some(bytes) ==> exists|r: Result<(Vec<CardImage>, Vec<CardImage>), String>|
                #[trigger] archive_result_matches(bytes@, r) && after_archive(*old(self), *final(self), r),
    {
        match first_bytes {
            Some(bytes) => self.process_zip(bytes),
            None => {},
        }
    }
}

/// The loaded archive and the grid size are the same in both states.
pub open spec fn same_cards(a: CardsWasmApp, b: CardsWasmApp) -> bool {
    &&& b.grid_size == a.grid_size
    &&& b.zip_loaded == a.zip_loaded
    &&& b.front_count == a.front_count
    &&& b.back_count == a.back_count
    &&& b.front_images == a.front_images
    &&& b.back_images == a.back_images
}

/// A run was started: the page is busy and shows no message.
pub open spec fn generation_started(before: CardsWasmApp, after: CardsWasmApp) -> bool {
    &&& after.is_processing
    &&& after.error_message is None
    &&& after.success_message is None
    &&& same_cards(before, after)
}

/// The result of making the PDF was taken: a document is handed on to be downloaded with the
/// page unchanged; a failure is shown, nothing is downloaded and the run is over.
pub open spec fn generation_handled(
    before: CardsWasmApp,
    after: CardsWasmApp,
    r: Result<Vec<u8>, CardsError>,
    download: Option<Vec<u8>>,
) -> bool {
    match r {
        Ok(bytes) => download == Some(bytes) && after == before,
        Err(e) => {
            &&& download is None
            &&& after.error_message matches Some(m) && prefixed_error(m@, "PDF generation failed: "@, e)
            &&& after.success_message == before.success_message
            &&& !after.is_processing
            &&& same_cards(before, after)
        },
    }
}

/// How the download went was shown, and the run is over.
pub open spec fn download_handled(before: CardsWasmApp, after: CardsWasmApp, d: Result<(), String>) -> bool {
    &&& d is Ok ==> {
        &&& after.success_message matches Some(m) && m@ == "PDF generated successfully"@
        &&& after.error_message == before.error_message
    }
    &&& d matches Err(e) ==> {
        &&& after.error_message matches Some(m) && m@ == "Download failed: "@ + e@
        &&& after.success_message == before.success_message
    }
    &&& !after.is_processing
    &&& same_cards(before, after)
}

/// A whole run on the page: it starts (`start_generation`), the PDF is made with result `r`
/// (`generation_done`) and, when there is a PDF, it is downloaded with result `d`
/// (`download_done`). A failed PDF is shown as "PDF generation failed: ..." and nothing is
/// downloaded; otherwise exactly the PDF made is downloaded, and the page shows success or
/// "Download failed: ...". Either way the run is over and the loaded archive stays.
pub proof fn lemma_generation_flow(
    s0: CardsWasmApp,
    s1: CardsWasmApp,
    s2: CardsWasmApp,
    s3: CardsWasmApp,
    r: Result<Vec<u8>, CardsError>,
    download: Option<Vec<u8>>,
    d: Result<(), String>,
)
    requires
        generation_started(s0, s1),
        generation_handled(s1, s2, r, download),
        r is Ok ==> download_handled(s2, s3, d),
        r is Err ==> s3 == s2,
    ensures
        !s3.is_processing,
        same_cards(s0, s3),
        r matches Err(e) ==> {
            &&& download is None
            &&& s3.error_message matches Some(m) && prefixed_error(m@, "PDF generation failed: "@, e)
            &&& s3.success_message is None
        },
        r matches Ok(bytes) ==> {
            &&& download == Some(bytes)
            &&& d is Ok ==> (s3.success_message matches Some(m) && m@ == "PDF generated successfully"@
                && s3.error_message is None)
            &&& d matches Err(x) ==> (s3.error_message matches Some(m) && m@ == "Download failed: "@ + x@
                && s3.success_message is None)
        },
{
}

} // verus!
