use vstd::prelude::*;
use vstd::string::*;
use crate::error::CardsError;

verus! {

/// Smallest accepted number of cards per row and column.
pub const MIN_GRID_SIZE: usize = 1;

/// Largest accepted number of cards per row and column.
pub const MAX_GRID_SIZE: usize = 20;

/// A grid size the library accepts.
pub open spec fn valid_grid_size(side_size: usize) -> bool {
    MIN_GRID_SIZE <= side_size <= MAX_GRID_SIZE
}

/// A card image held in memory: its file name and its encoded bytes.
#[derive(Debug, Clone)]
pub struct CardImage {
    pub name: String,
    pub data: Vec<u8>,
}

/// Settings for turning a cards folder into a PDF: where the cards are and how many
/// of them go in a row (and in a column) of each page.
#[derive(Debug)]
pub struct CardWriter {
    side_size: usize,
    cards_path: String,
}

impl CardWriter {
    #[verifier::type_invariant]
    spec fn well_formed(self) -> bool {
        valid_grid_size(self.side_size)
    }

    /// The grid size.
    pub closed spec fn side(self) -> usize {
        self.side_size
    }

    /// The cards folder.
    pub closed spec fn path(self) -> Seq<char> {
        self.cards_path@
    }

    /// Creates a writer for the cards under `cards_path` (with `front/` and `back/`
    /// subfolders) on `side_size` x `side_size` grids; the size must be within 1..=20.
    pub fn new(cards_path: String, side_size: usize) -> (r: Result<CardWriter, CardsError>)
        ensures
            valid_grid_size(side_size) <==> r is Ok,
            r matches Ok(w) ==> w.side() == side_size && w.path() == cards_path@,
            r matches Err(e) ==> e == CardsError::InvalidGridSize(side_size),
    {
        if side_size == 0 || side_size > MAX_GRID_SIZE {
            return Err(CardsError::InvalidGridSize(side_size));
        }
        Ok(CardWriter { side_size, cards_path })
    }

    /// The grid size.
    pub fn side_size(&self) -> (s: usize)
        ensures
            s == self.side(),
            valid_grid_size(s),
    {
        proof {
            use_type_invariant(self);
        }
        self.side_size
    }

    /// The cards folder.
    pub fn cards_path(&self) -> (p: &String)
        ensures
            p@ == self.path(),
    {
        &self.cards_path
    }

    /// The folder of the front images: `<cards_path>/front`.
    pub fn front_dir(&self) -> (p: String)
        ensures
            p@ == self.path() + "/front"@,
    {
        let mut p = self.cards_path.clone();
        p.append("/front");
        p
    }

    /// The folder of the back images: `<cards_path>/back`.
    pub fn back_dir(&self) -> (p: String)
        ensures
            p@ == self.path() + "/back"@,
    {
        let mut p = self.cards_path.clone();
        p.append("/back");
        p
    }
}

} // verus!
