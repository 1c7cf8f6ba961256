use vstd::prelude::*;
use vstd::string::*;
use crate::error::CardsError;
use crate::images::{count_card_images, is_card_entry, DirEntryInfo};
use crate::layout::{page_count, paged};
use crate::plan::{back_order, duplicate_count, in_order, planned_pages};
use vstd::arithmetic::div_mod::lemma_div_is_ordered;
use crate::writer::{valid_grid_size, CardWriter, MAX_GRID_SIZE, MIN_GRID_SIZE};

verus! {

/// The state of the desktop window: the chosen folders, the grid size, the messages shown
/// and the card counts of the chosen folder.
#[derive(Debug)]
pub struct CardsApp {
    pub cards_path: Option<String>,
    pub grid_size: usize,
    pub output_path: Option<String>,
    pub error_message: Option<String>,
    pub success_message: Option<String>,
    pub is_generating: bool,
    pub front_count: Option<usize>,
    pub back_count: Option<usize>,
}

/// The grid size a new window starts with.
pub const DEFAULT_GRID_SIZE: usize = 3;

impl Default for CardsApp {
    fn default() -> (app: CardsApp)
        ensures
            app.cards_path is None,
            app.grid_size == DEFAULT_GRID_SIZE,
            app.output_path matches Some(p) && p@ == "cards.pdf"@,
            app.error_message is None,
            app.success_message is None,
            !app.is_generating,
            app.front_count is None,
            app.back_count is None,
    {
        CardsApp {
            cards_path: None,
            grid_size: DEFAULT_GRID_SIZE,
            output_path: Some(String::from_str("cards.pdf")),
            error_message: None,
            success_message: None,
            is_generating: false,
            front_count: None,
            back_count: None,
        }
    }
}

/// The number of card images in a listing, or nothing when the folder could not be read.
pub open spec fn listed_count(listing: Option<Seq<DirEntryInfo>>) -> Option<usize> {
    match listing {
        Some(entries) => Some(entries.filter(|e: DirEntryInfo| is_card_entry(e)).len() as usize),
        None => None,
    }
}

/// The view of an optional listing.
pub open spec fn listing_view(listing: Option<&Vec<DirEntryInfo>>) -> Option<Seq<DirEntryInfo>> {
    match listing {
        Some(v) => Some(v@),
        None => None,
    }
}

/// A PDF to write: the validated settings and the file to write it to.
#[derive(Debug)]
pub struct PdfJob {
    pub writer: CardWriter,
    pub output_path: String,
}

/// The text of an error, as `Display` shows it.
pub open spec fn shows_error(text: Seq<char>, e: CardsError) -> bool {
    if e is IoError {
        text.len() >= "IO error: "@.len() && text.subrange(0, "IO error: "@.len() as int) == "IO error: "@
    } else {
        text == e.spec_message()
    }
}

/// `prefix` followed by the text of `e`.
pub open spec fn prefixed_error(text: Seq<char>, prefix: Seq<char>, e: CardsError) -> bool {
    text.len() >= prefix.len() && text.subrange(0, prefix.len() as int) == prefix && shows_error(
        text.subrange(prefix.len() as int, text.len() as int),
        e,
    )
}

pub(crate) fn error_text(prefix: &str, e: &CardsError) -> (text: String)
    ensures
        prefixed_error(text@, prefix@, *e),
{
    let mut text = String::from_str(prefix);
    let message = e.message();
    text.append(message.as_str());
    proof {
        assert(text@.subrange(0, prefix@.len() as int) =~= prefix@);
        assert(text@.subrange(prefix@.len() as int, text@.len() as int) =~= message@);
    }
    text
}

impl CardsApp {
    /// Counts the card images of the chosen folder's `front/` and `back/` subfolders from
    /// their listings (`None` where a folder could not be read); nothing changes while no
    /// folder is chosen.
    pub fn count_cards(&mut self, front_listing: Option<&Vec<DirEntryInfo>>, back_listing: Option<&Vec<DirEntryInfo>>)
        ensures
            old(self).cards_path is Some ==> {
                &&& final(self).front_count == listed_count(listing_view(front_listing))
                &&& final(self).back_count == listed_count(listing_view(back_listing))
            },
            old(self).cards_path is None ==> {
                &&& final(self).front_count == old(self).front_count
                &&& final(self).back_count == old(self).back_count
            },
            final(self).cards_path == old(self).cards_path,
            final(self).grid_size == old(self).grid_size,
            final(self).output_path == old(self).output_path,
            final(self).error_message == old(self).error_message,
            final(self).success_message == old(self).success_message,
            final(self).is_generating == old(self).is_generating,
    {
        if self.cards_path.is_some() {
            self.front_count = match front_listing {
                Some(entries) => Some(count_card_images(entries)),
                None => None,
            };
            self.back_count = match back_listing {
                Some(entries) => Some(count_card_images(entries)),
                None => None,
            };
        }
    }

    /// Starts generating: with a cards folder and an output file chosen, clears the messages
    /// and validates the settings. Invalid settings end the attempt with an error message;
    /// valid ones give the job to run, to be reported back with `finish_pdf`. Without both
    /// paths nothing happens.
    pub fn generate_pdf(&mut self) -> (job: Option<PdfJob>)
        ensures
            (old(self).cards_path is None || old(self).output_path is None) ==> (job is None && *final(self) == *old(self)),
            (old(self).cards_path is Some && old(self).output_path is Some) ==> {
                &&& final(self).success_message is None
                &&& valid_grid_size(old(self).grid_size) ==> {
                    &&& job matches Some(j)
                    &&& j.writer.side() == old(self).grid_size
                    &&& j.writer.path() == old(self).cards_path->0@
                    &&& j.output_path@ == old(self).output_path->0@
                    &&& final(self).error_message is None
                    &&& final(self).is_generating
                }
                &&& !valid_grid_size(old(self).grid_size) ==> {
                    &&& job is None
                    &&& final(self).error_message matches Some(m)
                    &&& prefixed_error(m@, "Invalid configuration: "@, CardsError::InvalidGridSize(old(self).grid_size))
                    &&& !final(self).is_generating
                }
                &&& final(self).cards_path == old(self).cards_path
                &&& final(self).grid_size == old(self).grid_size
                &&& final(self).output_path == old(self).output_path
                &&& final(self).front_count == old(self).front_count
                &&& final(self).back_count == old(self).back_count
            },
    {
        match (&self.cards_path, &self.output_path) {
            (Some(cards_path), Some(output_path)) => {
                let cards_path = cards_path.clone();
                let output_path = output_path.clone();
                self.is_generating = true;
                self.error_message = None;
                self.success_message = None;
                match CardWriter::new(cards_path, self.grid_size) {
                    Ok(writer) => Some(PdfJob { writer, output_path }),
                    Err(e) => {
                        self.error_message = Some(error_text("Invalid configuration: ", &e));
                        self.is_generating = false;
                        None
                    },
                }
            },
            _ => None,
        }
    }

    /// Reports how writing the PDF of `job` went: a success message naming the output file,
    /// or the error; generating is over either way.
    pub fn finish_pdf(&mut self, job: &PdfJob, result: Result<(), CardsError>)
        ensures
            result is Ok ==> {
                &&& final(self).success_message matches Some(m)
                &&& m@ == "PDF generated successfully: "@ + job.output_path@
                &&& final(self).error_message == old(self).error_message
            },
            result matches Err(e) ==> {
                &&& final(self).error_message matches Some(m)
                &&& prefixed_error(m@, "PDF generation failed: "@, e)
                &&& final(self).success_message == old(self).success_message
            },
            !final(self).is_generating,
            final(self).cards_path == old(self).cards_path,
            final(self).grid_size == old(self).grid_size,
            final(self).output_path == old(self).output_path,
            final(self).front_count == old(self).front_count,
            final(self).back_count == old(self).back_count,
    {
        match result {
            Ok(()) => {
                let mut text = String::from_str("PDF generated successfully: ");
                text.append(job.output_path.as_str());
                self.success_message = Some(text);
            },
            Err(e) => {
                self.error_message = Some(error_text("PDF generation failed: ", &e));
            },
        }
        self.is_generating = false;
    }
}

/// What the window shows about a run before it is made.
#[derive(Debug, Clone, Copy, PartialEq, Eq, Structural)]
pub struct GenerationSummary {
    /// How many times the last back card is repeated, when there are fewer back cards.
    pub duplicated: Option<usize>,
    pub front_pages: usize,
    pub back_pages: usize,
    pub total_pages: usize,
}

/// The summary shown for `front` front cards and `back` back cards on `grid` x `grid`
/// pages: each front page has a back page when there are back cards, and none otherwise.
pub open spec fn summary_of(front: usize, back: usize, grid: usize) -> GenerationSummary {
    let pages = page_count(front as nat, (grid * grid) as nat);
    let back_pages = if back > 0 { pages } else { 0 };
    GenerationSummary {
        duplicated: if front > back && back > 0 { Some((front - back) as usize) } else { None },
        front_pages: pages as usize,
        back_pages: back_pages as usize,
        total_pages: (pages + back_pages) as usize,
    }
}

/// The summary of a run: the duplication of the last back card and the page counts.
pub fn generation_summary(front: usize, back: usize, grid: usize) -> (s: GenerationSummary)
    requires
        grid >= 1,
        grid * grid <= usize::MAX,
        2 * page_count(front as nat, (grid * grid) as nat) <= usize::MAX,
    ensures
        s == summary_of(front, back, grid),
{
    let per_page = grid * grid;
    proof {
        assert(per_page >= 1) by (nonlinear_arith)
            requires
                grid >= 1,
                per_page == grid * grid,
        ;
        if front > 0 {
            assert((front - 1) / (per_page as int) + 1 <= front) by (nonlinear_arith)
                requires
                    per_page >= 1,
                    front >= 1,
            ;
        }
    }
    let pages = if front == 0 { 0 } else { (front - 1) / per_page + 1 };
    let back_pages = if back > 0 { pages } else { 0 };
    GenerationSummary {
        duplicated: if front > back && back > 0 { Some(front - back) } else { None },
        front_pages: pages,
        back_pages,
        total_pages: pages + back_pages,
    }
}


/// The page counts the window shows are those of the document it makes: as many front
/// pages as the layout makes, as many back pages as the rest of the document, and as many
/// pages in all. (With back cards, both counts must fit in an `i32`, where the document
/// computes how many back cards to add.)
pub proof fn lemma_summary_matches_document(front: usize, back: usize, grid: usize)
    requires
        valid_grid_size(grid),
        back > 0 ==> front <= i32::MAX && back <= i32::MAX,
    ensures
        summary_of(front, back, grid).front_pages == paged(in_order(front as nat), grid as nat).len(),
        summary_of(front, back, grid).back_pages == planned_pages(front, back, grid as nat).len()
            - paged(in_order(front as nat), grid as nat).len(),
        summary_of(front, back, grid).total_pages == planned_pages(front, back, grid as nat).len(),
{
    let ss = (grid * grid) as int;
    assert(1 <= ss <= 400) by (nonlinear_arith)
        requires
            1 <= grid <= 20,
            ss == grid * grid,
    ;
    let f = front as int;
    let fpages = page_count(front as nat, ss as nat);
    if f > 0 {
        lemma_div_is_ordered(f - 1, f, ss);
        assert((f - 1) / ss <= f) by (nonlinear_arith)
            requires
                ss >= 1,
                f >= 1,
        ;
    }
    assert(fpages <= f + 1);
    if back == 0 {
        assert(duplicate_count(front, back) == 0);
        assert(back_order(front, back).len() == 0);
    } else {
        assert(duplicate_count(front, back) == if front > back { front - back } else { 0 });
        let blen = back_order(front, back).len() as int;
        assert(blen >= f);
        if f > 0 {
            lemma_div_is_ordered(f - 1, blen - 1, ss);
        }
        let bpages = page_count(blen as nat, ss as nat);
        assert(fpages <= bpages);
    }
}


/// The duplication the window announces is the one the document makes: when both counts fit
/// in an `i32` (where the document computes it), the window names a number exactly when the
/// last back card is repeated, that number is how many copies are added, and the backs then
/// number as many as the fronts.
pub proof fn lemma_summary_duplication(front: usize, back: usize, grid: usize)
    requires
        front <= i32::MAX,
        back <= i32::MAX,
    ensures
        summary_of(front, back, grid).duplicated == (if duplicate_count(front, back) > 0 {
            Some(duplicate_count(front, back) as usize)
        } else {
            None
        }),
        duplicate_count(front, back) > 0 ==> back_order(front, back).len() == front,
{
    assert(duplicate_count(front, back) == if front > back && back > 0 { front - back } else { 0 });
}


/// The size the grid slider gives for a chosen value: it holds sizes 1..=20.
pub open spec fn slider_size(size: usize) -> usize {
    if size < MIN_GRID_SIZE {
        MIN_GRID_SIZE
    } else if size > MAX_GRID_SIZE {
        MAX_GRID_SIZE
    } else {
        size
    }
}

/// The size the grid slider gives for a chosen value (see `slider_size`).
pub fn slider_grid_size(size: usize) -> (s: usize)
    ensures
        s == slider_size(size),
        valid_grid_size(s),
{
    if size < MIN_GRID_SIZE {
        MIN_GRID_SIZE
    } else if size > MAX_GRID_SIZE {
        MAX_GRID_SIZE
    } else {
        size
    }
}

impl CardsApp {
    /// A cards folder was picked: it becomes the chosen folder, the messages are cleared and
    /// the cards of its `front/` and `back/` subfolders are counted from their listings.
    pub fn choose_folder(
        &mut self,
        path: String,
        front_listing: Option<&Vec<DirEntryInfo>>,
        back_listing: Option<&Vec<DirEntryInfo>>,
    )
        ensures
            final(self).cards_path matches Some(p) && p@ == path@,
            final(self).error_message is None,
            final(self).success_message is None,
            final(self).front_count == listed_count(listing_view(front_listing)),
            final(self).back_count == listed_count(listing_view(back_listing)),
            final(self).grid_size == old(self).grid_size,
            final(self).output_path == old(self).output_path,
            final(self).is_generating == old(self).is_generating,
    {
        self.cards_path = Some(path);
        self.error_message = None;
        self.success_message = None;
        self.count_cards(front_listing, back_listing);
    }

    /// The grid size slider was set to `size`; a new size clears the success message.
    pub fn set_grid_size(&mut self, size: usize)
        ensures
            final(self).grid_size == slider_size(size),
            final(self).grid_size != old(self).grid_size ==> final(self).success_message is None,
            final(self).grid_size == old(self).grid_size ==> final(self).success_message
                == old(self).success_message,
            final(self).cards_path == old(self).cards_path,
            final(self).output_path == old(self).output_path,
            final(self).error_message == old(self).error_message,
            final(self).is_generating == old(self).is_generating,
            final(self).front_count == old(self).front_count,
            final(self).back_count == old(self).back_count,
    {
        let size = slider_grid_size(size);
        if size != self.grid_size {
            self.grid_size = size;
            self.success_message = None;
        }
    }

    /// An output file was chosen; this clears the success message.
    pub fn choose_output(&mut self, path: String)
        ensures
            final(self).output_path matches Some(p) && p@ == path@,
            final(self).success_message is None,
            final(self).cards_path == old(self).cards_path,
            final(self).grid_size == old(self).grid_size,
            final(self).error_message == old(self).error_message,
            final(self).is_generating == old(self).is_generating,
            final(self).front_count == old(self).front_count,
            final(self).back_count == old(self).back_count,
    {
        self.output_path = Some(path);
        self.success_message = None;
    }

    /// Whether generating can start: both paths are chosen and no run is under way.
    pub fn can_generate(&self) -> (b: bool)
        ensures
            b == (self.cards_path is Some && self.output_path is Some && !self.is_generating),
    {
        self.cards_path.is_some() && self.output_path.is_some() && !self.is_generating
    }

    /// The page summary the window shows once both folders are counted.
    pub fn summary(&self) -> (s: Option<GenerationSummary>)
        requires
            valid_grid_size(self.grid_size),
            self.front_count matches Some(f) ==> 2 * page_count(f as nat, (self.grid_size * self.grid_size) as nat)
                <= usize::MAX,
        ensures
            match (self.front_count, self.back_count) {
                (Some(f), Some(b)) => s == Some(summary_of(f, b, self.grid_size)),
                _ => s is None,
            },
    {
        proof {
            assert(self.grid_size * self.grid_size <= 400) by (nonlinear_arith)
                requires
                    1 <= self.grid_size <= 20,
            ;
        }
        match (self.front_count, self.back_count) {
            (Some(f), Some(b)) => Some(generation_summary(f, b, self.grid_size)),
            _ => None,
        }
    }
}

} // verus!
