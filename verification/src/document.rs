use vstd::prelude::*;
use vstd::string::*;
use crate::error::CardsError;
use crate::layout::rows_of;
use crate::layout::{mirrored, paged};
use crate::plan::{back_order, duplicate_count, in_order, plan_pages, plan_view, planned_pages, CardSide, PagePlan};
use crate::writer::{valid_grid_size, CardImage, MAX_GRID_SIZE};

verus! {

#[verifier::external_type_specification]
#[verifier::external_body]
pub struct ExPdfDocument(printpdf::PdfDocument);

#[verifier::external_type_specification]
#[verifier::external_body]
pub struct ExRawImage(printpdf::RawImage);

#[verifier::external_type_specification]
#[verifier::external_body]
pub struct ExXObjectId(printpdf::XObjectId);

/// What `printpdf::RawImage::decode_from_bytes` gives for `bytes`: the decoded image's
/// content (as `raw_pixels` names it), its pixel width and height, or the error text.
pub uninterp spec fn decoded_image(bytes: Seq<u8>) -> Result<(Seq<u8>, usize, usize), Seq<char>>;

/// The content of a decoded image (its pixel data, with its size and format), as a value.
pub uninterp spec fn raw_pixels(image: printpdf::RawImage) -> Seq<u8>;

/// The images a document holds: for the key of each image's id, that image's content.
pub uninterp spec fn doc_images(doc: printpdf::PdfDocument) -> Map<Seq<char>, Seq<u8>>;

/// The key under which a document holds the image with this id (the id's text).
pub uninterp spec fn image_key(id: printpdf::XObjectId) -> Seq<char>;

/// What `format!("{:?}", s)` gives for a string `s` (quoted, with escapes).
pub uninterp spec fn debug_text(s: Seq<char>) -> Seq<char>;

/// A document's images when it holds none.
pub open spec fn no_images() -> Map<Seq<char>, Seq<u8>> {
    Map::empty()
}

/// `printpdf::PdfDocument::new`: an empty document with the given title; it holds no
/// images. Nothing else is stated of it (its title and metadata are not modelled).
#[verifier::external_body]
fn new_pdf_document(title: &str) -> (r: printpdf::PdfDocument)
    ensures
        doc_images(r) == no_images(),
{
    printpdf::PdfDocument::new(title)
}

/// `printpdf::RawImage::decode_from_bytes`: decodes an encoded image; the result is the
/// one that `decoded_image` names for these bytes (the image's content, width and height on
/// success).
#[verifier::external_body]
fn decode_raw_image(bytes: &[u8]) -> (r: Result<(printpdf::RawImage, usize, usize), String>)
    ensures
        match r {
            Ok((image, w, h)) => decoded_image(bytes@) == Ok::<(Seq<u8>, usize, usize), Seq<char>>(
                (raw_pixels(image), w, h),
            ),
            Err(e) => decoded_image(bytes@) == Err::<(Seq<u8>, usize, usize), Seq<char>>(e@),
        },
{
    match printpdf::RawImage::decode_from_bytes(bytes, &mut Vec::new()) {
        Ok(image) => {
            let (w, h) = (image.width, image.height);
            Ok((image, w, h))
        },
        Err(e) => Err(e),
    }
}

/// `printpdf::PdfDocument::add_image`: stores (a copy of) the image in the document under
/// the id it returns. The id is drawn at random, so nothing is stated of its value.
#[verifier::external_body]
fn add_pdf_image(doc: &mut printpdf::PdfDocument, image: &printpdf::RawImage) -> (id: printpdf::XObjectId)
    ensures
        doc_images(*final(doc)) == doc_images(*old(doc)).insert(image_key(id), raw_pixels(*image)),
{
    doc.add_image(image)
}

/// `format!("{:?}", s)` for a string: the text is the one `debug_text` names.
#[verifier::external_body]
fn debug_string(s: &String) -> (r: String)
    ensures
        r@ == debug_text(s@),
{
    format!("{:?}", s)
}

/// An image placed on a page: its cell, its id in the document and its pixel size.
#[derive(Debug)]
pub struct PlacedImage {
    pub row: usize,
    pub col: usize,
    pub index: usize,
    pub id: printpdf::XObjectId,
    pub width: usize,
    pub height: usize,
}

/// The bytes decode to an image of `w` x `h` pixels.
pub open spec fn decodes_to(bytes: Seq<u8>, w: usize, h: usize) -> bool {
    decoded_image(bytes) matches Ok((_, ww, hh)) && ww == w && hh == h
}

/// The content of the image the bytes decode to (empty when they do not decode).
pub open spec fn decoded_content(bytes: Seq<u8>) -> Seq<u8> {
    match decoded_image(bytes) {
        Ok((content, _, _)) => content,
        Err(_) => seq![],
    }
}

/// Decodes an encoded card image and stores it in `doc`: gives its id and pixel size, or
/// the decoder's error text (and then the document is left as it was).
pub fn add_card_image(doc: &mut printpdf::PdfDocument, data: &[u8]) -> (r: Result<(printpdf::XObjectId, usize, usize), String>)
    ensures
        match r {
            Ok((id, w, h)) => {
                &&& decodes_to(data@, w, h)
                &&& decoded_image(data@) is Ok
                &&& doc_images(*final(doc)) == doc_images(*old(doc)).insert(image_key(id), decoded_content(data@))
            },
            Err(e) => {
                &&& decoded_image(data@) == Err::<(Seq<u8>, usize, usize), Seq<char>>(e@)
                &&& doc_images(*final(doc)) == doc_images(*old(doc))
            },
        },
{
    match decode_raw_image(data) {
        Ok((raw, w, h)) => {
            let id = add_pdf_image(doc, &raw);
            Ok((id, w, h))
        },
        Err(e) => Err(e),
    }
}

/// The cards of one row of a page from column `c` on: (row, column, card index).
pub open spec fn row_cards(row: Seq<Option<usize>>, r: int, c: int) -> Seq<(int, int, usize)>
    decreases row.len() - c,
{
    if c < 0 || c >= row.len() {
        seq![]
    } else {
        match row[c] {
            Some(i) => seq![(r, c, i)] + row_cards(row, r, c + 1),
            None => row_cards(row, r, c + 1),
        }
    }
}

/// The cards of a page from row `r` on, row by row, left to right.
pub open spec fn page_cards(rows: Seq<Seq<Option<usize>>>, r: int) -> Seq<(int, int, usize)>
    decreases rows.len() - r,
{
    if r < 0 || r >= rows.len() {
        seq![]
    } else {
        row_cards(rows[r], r, 0) + page_cards(rows, r + 1)
    }
}

/// The encoded bytes of card `i` of the given side.
pub open spec fn card_bytes(side: CardSide, i: usize, front: Seq<CardImage>, back: Seq<CardImage>) -> Seq<u8> {
    match side {
        CardSide::Front => front[i as int].data@,
        CardSide::Back => back[i as int].data@,
    }
}

/// The file name of card `i` of the given side.
pub open spec fn card_name(side: CardSide, i: usize, front: Seq<CardImage>, back: Seq<CardImage>) -> Seq<char> {
    match side {
        CardSide::Front => front[i as int].name@,
        CardSide::Back => back[i as int].name@,
    }
}

/// The `k`-th card of page `j` of the plan decodes.
pub open spec fn card_decodes(
    plan: Seq<(CardSide, Seq<Seq<Option<usize>>>)>,
    front: Seq<CardImage>,
    back: Seq<CardImage>,
    j: int,
    k: int,
) -> bool {
    decoded_image(card_bytes(plan[j].0, page_cards(plan[j].1, 0)[k].2, front, back)) is Ok
}

/// Every card placed before card `k` of page `j` (in page order, then reading order) decodes.
pub open spec fn decodes_before(
    plan: Seq<(CardSide, Seq<Seq<Option<usize>>>)>,
    front: Seq<CardImage>,
    back: Seq<CardImage>,
    j: int,
    k: int,
) -> bool {
    &&& forall|jj: int, kk: int|
        0 <= jj < j && 0 <= kk < page_cards(plan[jj].1, 0).len() ==> #[trigger] card_decodes(
            plan,
            front,
            back,
            jj,
            kk,
        )
    &&& forall|kk: int| 0 <= kk < k ==> #[trigger] card_decodes(plan, front, back, j, kk)
}

/// The text of the error given for a card whose bytes do not decode.
pub open spec fn decode_failure_text(name: Seq<char>, reason: Seq<char>) -> Seq<char> {
    "Failed to decode "@ + name + ": "@ + debug_text(reason)
}

/// Every card of the plan names an existing image of its side.
pub open spec fn indices_in_range(
    plan: Seq<(CardSide, Seq<Seq<Option<usize>>>)>,
    front_len: nat,
    back_len: nat,
) -> bool {
    forall|j: int, r: int, c: int|
        0 <= j < plan.len() && 0 <= r < plan[j].1.len() && 0 <= c < plan[j].1[r].len() ==> match #[trigger] plan[j].1[r][c] {
            Some(i) => i < if plan[j].0 == CardSide::Front {
                front_len
            } else {
                back_len
            },
            None => true,
        }
}

/// The images placed on a page are its cards in reading order, each with the pixel size
/// that decoding gave.
pub open spec fn placements_match(
    placed: Seq<PlacedImage>,
    side: CardSide,
    cards: Seq<(int, int, usize)>,
    front: Seq<CardImage>,
    back: Seq<CardImage>,
) -> bool {
    &&& placed.len() == cards.len()
    &&& forall|k: int|
        0 <= k < cards.len() ==> {
            &&& (#[trigger] placed[k]).row == cards[k].0
            &&& placed[k].col == cards[k].1
            &&& placed[k].index == cards[k].2
            &&& decodes_to(card_bytes(side, cards[k].2, front, back), placed[k].width, placed[k].height)
        }
}

proof fn lemma_row_cards_cells(row: Seq<Option<usize>>, r: int, c: int)
    ensures
        forall|k: int|
            0 <= k < row_cards(row, r, c).len() ==> {
                let e = #[trigger] row_cards(row, r, c)[k];
                &&& e.0 == r
                &&& 0 <= c <= e.1 < row.len()
                &&& row[e.1] == Some(e.2)
            },
    decreases row.len() - c,
{
    if c < 0 || c >= row.len() {
    } else {
        lemma_row_cards_cells(row, r, c + 1);
        let rest = row_cards(row, r, c + 1);
        match row[c] {
            Some(i) => {
                assert forall|k: int| 0 <= k < row_cards(row, r, c).len() implies {
                    let e = #[trigger] row_cards(row, r, c)[k];
                    &&& e.0 == r
                    &&& 0 <= c <= e.1 < row.len()
                    &&& row[e.1] == Some(e.2)
                } by {
                    if k > 0 {
                        assert(row_cards(row, r, c)[k] == rest[k - 1]);
                    }
                }
            },
            None => {},
        }
    }
}

proof fn lemma_page_cards_cells(rows: Seq<Seq<Option<usize>>>, r: int)
    ensures
        forall|k: int|
            0 <= k < page_cards(rows, r).len() ==> {
                let e = #[trigger] page_cards(rows, r)[k];
                &&& r <= e.0 < rows.len()
                &&& 0 <= e.1 < rows[e.0].len()
                &&& rows[e.0][e.1] == Some(e.2)
            },
    decreases rows.len() - r,
{
    if r < 0 || r >= rows.len() {
    } else {
        lemma_row_cards_cells(rows[r], r, 0);
        lemma_page_cards_cells(rows, r + 1);
        let head = row_cards(rows[r], r, 0);
        let rest = page_cards(rows, r + 1);
        assert forall|k: int| 0 <= k < page_cards(rows, r).len() implies {
            let e = #[trigger] page_cards(rows, r)[k];
            &&& r <= e.0 < rows.len()
            &&& 0 <= e.1 < rows[e.0].len()
            &&& rows[e.0][e.1] == Some(e.2)
        } by {
            if k < head.len() {
                assert(page_cards(rows, r)[k] == head[k]);
            } else {
                assert(page_cards(rows, r)[k] == rest[k - head.len()]);
            }
        }
    }
}

/// Every card of every page decodes.
pub open spec fn all_cards_decode(
    plan: Seq<(CardSide, Seq<Seq<Option<usize>>>)>,
    front: Seq<CardImage>,
    back: Seq<CardImage>,
) -> bool {
    forall|j: int, k: int|
        0 <= j < plan.len() && 0 <= k < page_cards(plan[j].1, 0).len() ==> #[trigger] card_decodes(
            plan,
            front,
            back,
            j,
            k,
        )
}

/// `placed` holds, for each page of the plan, its placed images.
pub open spec fn all_placed(
    plan: Seq<(CardSide, Seq<Seq<Option<usize>>>)>,
    front: Seq<CardImage>,
    back: Seq<CardImage>,
    placed: Seq<Vec<PlacedImage>>,
) -> bool {
    &&& placed.len() == plan.len()
    &&& forall|j: int|
        0 <= j < plan.len() ==> placements_match(
            (#[trigger] placed[j])@,
            plan[j].0,
            page_cards(plan[j].1, 0),
            front,
            back,
        )
}

/// `e` is the error for card `k` of page `j`, which does not decode, while every card
/// before it (in page order, then reading order) decodes.
pub open spec fn decode_failure_at(
    plan: Seq<(CardSide, Seq<Seq<Option<usize>>>)>,
    front: Seq<CardImage>,
    back: Seq<CardImage>,
    e: CardsError,
    j: int,
    k: int,
) -> bool {
    &&& 0 <= j < plan.len()
    &&& 0 <= k < page_cards(plan[j].1, 0).len()
    &&& decodes_before(plan, front, back, j, k)
    &&& decoded_image(card_bytes(plan[j].0, page_cards(plan[j].1, 0)[k].2, front, back))
        matches Err(reason)
    &&& e matches CardsError::ImageDecodeError(text)
    &&& text@ == decode_failure_text(
        card_name(plan[j].0, page_cards(plan[j].1, 0)[k].2, front, back),
        reason,
    )
}

/// `e` is the error for the first card of the plan (in page order, then reading order)
/// that does not decode.
pub open spec fn first_decode_failure(
    plan: Seq<(CardSide, Seq<Seq<Option<usize>>>)>,
    front: Seq<CardImage>,
    back: Seq<CardImage>,
    e: CardsError,
) -> bool {
    exists|j: int, k: int| #[trigger] decode_failure_at(plan, front, back, e, j, k)
}

/// The content of the image that card `i` of the given side decodes to.
pub open spec fn card_pixels(side: CardSide, i: usize, front: Seq<CardImage>, back: Seq<CardImage>) -> Seq<u8> {
    decoded_content(card_bytes(side, i, front, back))
}

/// What storing the placed images of a page adds to the document, in order: the key of
/// each image's id, with the content of its card's image.
pub open spec fn page_entries(
    placed: Seq<PlacedImage>,
    side: CardSide,
    front: Seq<CardImage>,
    back: Seq<CardImage>,
) -> Seq<(Seq<char>, Seq<u8>)> {
    Seq::new(placed.len(), |k: int| (image_key(placed[k].id), card_pixels(side, placed[k].index, front, back)))
}

/// What storing the placed images of every page adds to the document, page by page.
pub open spec fn placed_entries(
    placed: Seq<Vec<PlacedImage>>,
    plan: Seq<(CardSide, Seq<Seq<Option<usize>>>)>,
    front: Seq<CardImage>,
    back: Seq<CardImage>,
) -> Seq<(Seq<char>, Seq<u8>)>
    decreases placed.len(),
{
    if placed.len() == 0 {
        seq![]
    } else {
        placed_entries(placed.drop_last(), plan, front, back) + page_entries(
            placed.last()@,
            plan[placed.len() - 1].0,
            front,
            back,
        )
    }
}

/// `images` with the entries stored one after the other (a later entry under the same key
/// replaces an earlier one).
pub open spec fn insert_all(images: Map<Seq<char>, Seq<u8>>, entries: Seq<(Seq<char>, Seq<u8>)>) -> Map<
    Seq<char>,
    Seq<u8>,
>
    decreases entries.len(),
{
    if entries.len() == 0 {
        images
    } else {
        insert_all(images, entries.drop_last()).insert(entries.last().0, entries.last().1)
    }
}

/// The cards of a page in reading order, each with the page's side.
pub open spec fn page_list(page: (CardSide, Seq<Seq<Option<usize>>>)) -> Seq<(CardSide, usize)> {
    page_cards(page.1, 0).map_values(|e: (int, int, usize)| (page.0, e.2))
}

/// The cards of the plan, page by page, in reading order.
pub open spec fn plan_cards(plan: Seq<(CardSide, Seq<Seq<Option<usize>>>)>) -> Seq<(CardSide, usize)>
    decreases plan.len(),
{
    if plan.len() == 0 {
        seq![]
    } else {
        plan_cards(plan.drop_last()) + page_list(plan.last())
    }
}

/// The cards that come before card `k` of page `j`.
pub open spec fn cards_before(plan: Seq<(CardSide, Seq<Seq<Option<usize>>>)>, j: int, k: int) -> Seq<
    (CardSide, usize),
> {
    plan_cards(plan.take(j)) + page_list(plan[j]).take(k)
}

/// The document's images went from `before` to `after` by storing the images of `cards`, in
/// order, under the keys `keys`.
pub open spec fn stored_cards(
    before: Map<Seq<char>, Seq<u8>>,
    after: Map<Seq<char>, Seq<u8>>,
    cards: Seq<(CardSide, usize)>,
    front: Seq<CardImage>,
    back: Seq<CardImage>,
    keys: Seq<Seq<char>>,
) -> bool {
    &&& keys.len() == cards.len()
    &&& after == insert_all(
        before,
        Seq::new(cards.len(), |t: int| (keys[t], card_pixels(cards[t].0, cards[t].1, front, back))),
    )
}

/// `e` is the error for card `k` of page `j`, the first that does not decode, and the
/// images of all the cards before it were stored, in order, under the keys `keys`.
pub open spec fn failed_after_storing(
    plan: Seq<(CardSide, Seq<Seq<Option<usize>>>)>,
    front: Seq<CardImage>,
    back: Seq<CardImage>,
    e: CardsError,
    before: Map<Seq<char>, Seq<u8>>,
    after: Map<Seq<char>, Seq<u8>>,
    j: int,
    k: int,
    keys: Seq<Seq<char>>,
) -> bool {
    &&& decode_failure_at(plan, front, back, e, j, k)
    &&& stored_cards(before, after, cards_before(plan, j, k), front, back, keys)
}

/// The document holds `doc0`'s images with `entries` stored on top, and the content of each
/// entry is the image of the card at the same place in `cards`.
spec fn stored_so_far(
    now: Map<Seq<char>, Seq<u8>>,
    doc0: Map<Seq<char>, Seq<u8>>,
    entries: Seq<(Seq<char>, Seq<u8>)>,
    cards: Seq<(CardSide, usize)>,
    front: Seq<CardImage>,
    back: Seq<CardImage>,
) -> bool {
    &&& now == insert_all(doc0, entries)
    &&& entries.len() == cards.len()
    &&& forall|t: int|
        0 <= t < entries.len() ==> #[trigger] entries[t].1 == card_pixels(cards[t].0, cards[t].1, front, back)
}

/// Decodes the cards of every page, in page order and reading order, and adds each to
/// `doc`; stops at the first card that does not decode. Each image is stored once, under
/// the id placed for its cell; on a failure the images of the cards before it are stored.
pub fn place_images(
    doc: &mut printpdf::PdfDocument,
    plan: &Vec<PagePlan>,
    front: &Vec<CardImage>,
    back: &Vec<CardImage>,
) -> (r: Result<Vec<Vec<PlacedImage>>, CardsError>)
    requires
        indices_in_range(plan_view(plan@), front@.len(), back@.len()),
    ensures
        r is Ok <==> all_cards_decode(plan_view(plan@), front@, back@),
        r matches Ok(placed) ==> all_placed(plan_view(plan@), front@, back@, placed@),
        r matches Ok(placed) ==> doc_images(*final(doc)) == insert_all(
            doc_images(*old(doc)),
            placed_entries(placed@, plan_view(plan@), front@, back@),
        ),
        r matches Err(e) ==> first_decode_failure(plan_view(plan@), front@, back@, e),
        r matches Err(e) ==> exists|j: int, k: int, keys: Seq<Seq<char>>|
            #[trigger] failed_after_storing(
                plan_view(plan@),
                front@,
                back@,
                e,
                doc_images(*old(doc)),
                doc_images(*final(doc)),
                j,
                k,
                keys,
            ),
{
    let ghost pv = plan_view(plan@);
    let ghost doc0 = doc_images(*doc);
    let ghost mut entries: Seq<(Seq<char>, Seq<u8>)> = seq![];
    let ghost mut cards: Seq<(CardSide, usize)> = seq![];
    let mut placed: Vec<Vec<PlacedImage>> = Vec::new();
    let mut j: usize = 0;
    proof {
        assert(pv.take(0) =~= Seq::<(CardSide, Seq<Seq<Option<usize>>>)>::empty());
    }
    while j < plan.len()
        invariant
            pv == plan_view(plan@),
            doc0 == doc_images(*old(doc)),
            indices_in_range(pv, front@.len(), back@.len()),
            j <= plan@.len(),
            placed@.len() == j,
            stored_so_far(doc_images(*doc), doc0, entries, cards, front@, back@),
            entries == placed_entries(placed@, pv, front@, back@),
            cards == plan_cards(pv.take(j as int)),
            forall|jj: int|
                0 <= jj < j ==> placements_match(
                    (#[trigger] placed@[jj])@,
                    plan@[jj].side,
                    page_cards(pv[jj].1, 0),
                    front@,
                    back@,
                ),
            forall|jj: int, kk: int|
                0 <= jj < j && 0 <= kk < page_cards(pv[jj].1, 0).len() ==> #[trigger] card_decodes(
                    pv,
                    front@,
                    back@,
                    jj,
                    kk,
                ),
        decreases plan.len() - j,
    {
        let page = &plan[j];
        let ghost rows = pv[j as int].1;
        let ghost all = page_cards(rows, 0);
        let ghost mut done: Seq<(int, int, usize)> = seq![];
        let ghost placed_before = placed@;
        proof {
            lemma_page_cards_cells(rows, 0);
            assert(all == done + page_cards(rows, 0));
            assert(page_list(pv[j as int]).take(0) =~= Seq::<(CardSide, usize)>::empty());
            assert(cards =~= plan_cards(pv.take(j as int)) + page_list(pv[j as int]).take(0));
            assert(page_entries(seq![], pv[j as int].0, front@, back@) =~= Seq::<(Seq<char>, Seq<u8>)>::empty());
            assert(entries =~= placed_entries(placed@, pv, front@, back@) + page_entries(seq![], pv[j as int].0, front@, back@));
        }
        let mut page_placed: Vec<PlacedImage> = Vec::new();
        let mut r: usize = 0;
        while r < page.cells.len()
            invariant
                pv == plan_view(plan@),
                doc0 == doc_images(*old(doc)),
                indices_in_range(pv, front@.len(), back@.len()),
                0 <= j < plan@.len(),
                page == &plan@[j as int],
                rows == pv[j as int].1,
                rows == rows_of(page.cells@),
                all == page_cards(rows, 0),
                r <= page.cells@.len(),
                all == done + page_cards(rows, r as int),
                placed@ == placed_before,
                placed@.len() == j,
                stored_so_far(doc_images(*doc), doc0, entries, cards, front@, back@),
                entries == placed_entries(placed@, pv, front@, back@) + page_entries(page_placed@, pv[j as int].0, front@, back@),
                cards == plan_cards(pv.take(j as int)) + page_list(pv[j as int]).take(done.len() as int),
                page_placed@.len() == done.len(),
                forall|kk: int|
                    0 <= kk < done.len() ==> {
                        &&& (#[trigger] page_placed@[kk]).row == done[kk].0
                        &&& page_placed@[kk].col == done[kk].1
                        &&& page_placed@[kk].index == done[kk].2
                        &&& decodes_to(card_bytes(page.side, done[kk].2, front@, back@), page_placed@[kk].width, page_placed@[kk].height)
                    },
                forall|jj: int, kk: int|
                    0 <= jj < j && 0 <= kk < page_cards(pv[jj].1, 0).len() ==> #[trigger] card_decodes(
                        pv,
                        front@,
                        back@,
                        jj,
                        kk,
                    ),
                forall|kk: int| 0 <= kk < done.len() ==> #[trigger] card_decodes(pv, front@, back@, j as int, kk),
            decreases page.cells.len() - r,
        {
            let row = &page.cells[r];
            let ghost row_all = row_cards(rows[r as int], r as int, 0);
            proof {
                assert(rows[r as int] == row@);
                assert(page_cards(rows, r as int) == row_all + page_cards(rows, r + 1));
                assert(all == (done + row_all) + page_cards(rows, r + 1));
            }
            let ghost done_before_row = done;
            let mut c: usize = 0;
            while c < row.len()
                invariant
                    pv == plan_view(plan@),
                    doc0 == doc_images(*old(doc)),
                    indices_in_range(pv, front@.len(), back@.len()),
                    0 <= j < plan@.len(),
                    page == &plan@[j as int],
                    rows == pv[j as int].1,
                    rows == rows_of(page.cells@),
                    all == page_cards(rows, 0),
                    0 <= r < page.cells@.len(),
                    row == &page.cells@[r as int],
                    row_all == row_cards(row@, r as int, 0),
                    all == (done_before_row + row_all) + page_cards(rows, r + 1),
                    c <= row@.len(),
                    done_before_row + row_all == done + row_cards(row@, r as int, c as int),
                    placed@ == placed_before,
                    placed@.len() == j,
                    stored_so_far(doc_images(*doc), doc0, entries, cards, front@, back@),
                    entries == placed_entries(placed@, pv, front@, back@) + page_entries(page_placed@, pv[j as int].0, front@, back@),
                    cards == plan_cards(pv.take(j as int)) + page_list(pv[j as int]).take(done.len() as int),
                    page_placed@.len() == done.len(),
                    forall|kk: int|
                        0 <= kk < done.len() ==> {
                            &&& (#[trigger] page_placed@[kk]).row == done[kk].0
                            &&& page_placed@[kk].col == done[kk].1
                            &&& page_placed@[kk].index == done[kk].2
                            &&& decodes_to(card_bytes(page.side, done[kk].2, front@, back@), page_placed@[kk].width, page_placed@[kk].height)
                        },
                    forall|jj: int, kk: int|
                        0 <= jj < j && 0 <= kk < page_cards(pv[jj].1, 0).len() ==> #[trigger] card_decodes(
                            pv,
                            front@,
                            back@,
                            jj,
                            kk,
                        ),
                    forall|kk: int| 0 <= kk < done.len() ==> #[trigger] card_decodes(pv, front@, back@, j as int, kk),
                decreases row.len() - c,
            {
                let ghost rest_before = row_cards(row@, r as int, c as int);
                match row[c] {
                    Some(i) => {
                        let ghost k = done.len() as int;
                        proof {
                            assert(rest_before == seq![(r as int, c as int, i)] + row_cards(row@, r as int, c + 1));
                            assert(all == done + (rest_before + page_cards(rows, r + 1)));
                            assert(all[k] == (r as int, c as int, i));
                            assert(rows[r as int][c as int] == Some(i));
                            assert(pv[j as int].0 == page.side);
                        }
                        let image = if page.side == CardSide::Front {
                            &front[i]
                        } else {
                            &back[i]
                        };
                        let ghost images_before = doc_images(*doc);
                        match add_card_image(doc, image.data.as_slice()) {
                            Ok((id, w, h)) => {
                                let ghost old_placed = page_placed@;
                                page_placed.push(PlacedImage { row: r, col: c, index: i, id, width: w, height: h });
                                proof {
                                    let e = (image_key(id), card_pixels(page.side, i, front@, back@));
                                    let card = (page.side, i);
                                    assert(card_bytes(page.side, i, front@, back@) == image.data@);
                                    assert(page_entries(page_placed@, pv[j as int].0, front@, back@) =~= page_entries(old_placed, pv[j as int].0, front@, back@).push(e));
                                    let old_entries = entries;
                                    entries = entries.push(e);
                                    assert(entries =~= placed_entries(placed@, pv, front@, back@) + page_entries(page_placed@, pv[j as int].0, front@, back@));
                                    assert(entries.drop_last() =~= old_entries);
                                    assert(doc_images(*doc) == insert_all(doc0, entries));
                                    let pl = page_list(pv[j as int]);
                                    assert(pl[k] == card);
                                    assert(pl.take(k + 1) =~= pl.take(k).push(card));
                                    cards = cards.push(card);
                                    assert(cards =~= plan_cards(pv.take(j as int)) + pl.take(k + 1));
                                    done = done.push((r as int, c as int, i));
                                    assert(done_before_row + row_all =~= done + row_cards(row@, r as int, c + 1));
                                    assert(card_decodes(pv, front@, back@, j as int, k));
                                    assert forall|t: int| 0 <= t < entries.len() implies #[trigger] entries[t].1
                                        == card_pixels(cards[t].0, cards[t].1, front@, back@) by {
                                        if t < old_entries.len() {
                                            assert(entries[t] == old_entries[t]);
                                        }
                                    }
                                }
                            },
                            Err(reason) => {
                                let mut text = String::from_str("Failed to decode ");
                                text.append(image.name.as_str());
                                text.append(": ");
                                text.append(debug_string(&reason).as_str());
                                let e = CardsError::ImageDecodeError(text);
                                proof {
                                    assert(decodes_before(pv, front@, back@, j as int, k));
                                    assert(card_bytes(page.side, i, front@, back@) == image.data@);
                                    assert(card_name(page.side, i, front@, back@) == image.name@);
                                    assert(all[k].2 == i);
                                    assert(!card_decodes(pv, front@, back@, j as int, k));
                                    assert(text@ =~= decode_failure_text(image.name@, reason@));
                                    assert(decoded_image(card_bytes(plan@[j as int].side, page_cards(pv[j as int].1, 0)[k].2, front@, back@)) matches Err(rr) && rr == reason@);
                                    assert(decode_failure_at(pv, front@, back@, e, j as int, k));
                                    let keys = Seq::new(entries.len(), |t: int| entries[t].0);
                                    let cb = cards_before(pv, j as int, k);
                                    assert(cb == cards);
                                    let stored = Seq::new(cb.len(), |t: int| (keys[t], card_pixels(cb[t].0, cb[t].1, front@, back@)));
                                    assert forall|t: int| 0 <= t < entries.len() implies #[trigger] stored[t] == entries[t] by {
                                        assert(entries[t].1 == card_pixels(cards[t].0, cards[t].1, front@, back@));
                                    }
                                    assert(stored =~= entries);
                                    assert(stored_cards(doc0, doc_images(*doc), cb, front@, back@, keys));
                                    assert(failed_after_storing(pv, front@, back@, e, doc0, doc_images(*doc), j as int, k, keys));
                                }
                                return Err(e);
                            },
                        }
                    },
                    None => {
                        proof {
                            assert(rest_before == row_cards(row@, r as int, c + 1));
                        }
                    },
                }
                c = c + 1;
            }
            proof {
                assert(row_cards(row@, r as int, c as int) == Seq::<(int, int, usize)>::empty());
                assert(done_before_row + row_all =~= done);
            }
            r = r + 1;
        }
        proof {
            assert(page_cards(rows, r as int) == Seq::<(int, int, usize)>::empty());
            assert(all =~= done);
        }
        let ghost pp = page_placed@;
        placed.push(page_placed);
        proof {
            let pl = page_list(pv[j as int]);
            assert(pl.len() == all.len());
            assert(pl.take(done.len() as int) =~= pl);
            assert(pv.take(j + 1).drop_last() =~= pv.take(j as int));
            assert(pv.take(j + 1).last() == pv[j as int]);
            assert(plan_cards(pv.take(j + 1)) == plan_cards(pv.take(j as int)) + pl);
            assert(placed@.drop_last() =~= placed_before);
            assert(placed@.last()@ == pp);
            assert(placed_entries(placed@, pv, front@, back@) == placed_entries(placed_before, pv, front@, back@) + page_entries(pp, pv[j as int].0, front@, back@));
            assert forall|jj: int| 0 <= jj < j + 1 implies placements_match(
                    (#[trigger] placed@[jj])@,
                    plan@[jj].side,
                    page_cards(pv[jj].1, 0),
                    front@,
                    back@,
                ) by {
                if jj < j {
                    assert(placed@[jj] == placed_before[jj]);
                }
            }
        }
        j = j + 1;
    }
    proof {
        assert(pv.take(j as int) =~= pv);
    }
    Ok(placed)
}

/// No two entries share a key.
pub open spec fn distinct_keys(entries: Seq<(Seq<char>, Seq<u8>)>) -> bool {
    forall|a: int, b: int| 0 <= a < b < entries.len() ==> #[trigger] entries[a].0 != #[trigger] entries[b].0
}

/// Reading back what was stored: when the keys are distinct, each stored entry's key gives
/// that entry's content.
pub proof fn lemma_stored_entry(images: Map<Seq<char>, Seq<u8>>, entries: Seq<(Seq<char>, Seq<u8>)>, t: int)
    requires
        distinct_keys(entries),
        0 <= t < entries.len(),
    ensures
        insert_all(images, entries).contains_key(entries[t].0),
        insert_all(images, entries)[entries[t].0] == entries[t].1,
    decreases entries.len(),
{
    if t < entries.len() - 1 {
        let rest = entries.drop_last();
        assert(rest[t] == entries[t]);
        assert(entries[t].0 != entries[entries.len() - 1].0);
        assert forall|a: int, b: int| 0 <= a < b < rest.len() implies #[trigger] rest[a].0 != #[trigger] rest[b].0 by {
            assert(rest[a] == entries[a] && rest[b] == entries[b]);
        }
        lemma_stored_entry(images, rest, t);
    }
}

/// Where the image placed as entry `k` of page `j` comes in the stored entries.
pub proof fn lemma_entry_position(
    placed: Seq<Vec<PlacedImage>>,
    plan: Seq<(CardSide, Seq<Seq<Option<usize>>>)>,
    front: Seq<CardImage>,
    back: Seq<CardImage>,
    j: int,
    k: int,
) -> (t: int)
    requires
        0 <= j < placed.len(),
        0 <= k < placed[j]@.len(),
    ensures
        0 <= t < placed_entries(placed, plan, front, back).len(),
        placed_entries(placed, plan, front, back)[t] == (
            image_key(placed[j]@[k].id),
            card_pixels(plan[j].0, placed[j]@[k].index, front, back),
        ),
    decreases placed.len(),
{
    let prefix = placed_entries(placed.drop_last(), plan, front, back);
    let page = page_entries(placed.last()@, plan[placed.len() - 1].0, front, back);
    if j == placed.len() - 1 {
        let t = prefix.len() + k;
        assert((prefix + page)[t] == page[k]);
        t
    } else {
        assert(placed.drop_last()[j] == placed[j]);
        let t = lemma_entry_position(placed.drop_last(), plan, front, back, j, k);
        assert((prefix + page)[t] == prefix[t]);
        t
    }
}

/// What the document shows for a placed cell is that card's picture: when the ids drawn for
/// the images are all different, the document holds, under the id placed for card `k` of
/// page `j`, the content of the image that card's bytes decode to.
pub proof fn lemma_placed_image_shown(
    placed: Seq<Vec<PlacedImage>>,
    plan: Seq<(CardSide, Seq<Seq<Option<usize>>>)>,
    front: Seq<CardImage>,
    back: Seq<CardImage>,
    images: Map<Seq<char>, Seq<u8>>,
    j: int,
    k: int,
)
    requires
        distinct_keys(placed_entries(placed, plan, front, back)),
        0 <= j < placed.len(),
        0 <= k < placed[j]@.len(),
    ensures
        insert_all(images, placed_entries(placed, plan, front, back)).contains_key(image_key(placed[j]@[k].id)),
        insert_all(images, placed_entries(placed, plan, front, back))[image_key(placed[j]@[k].id)]
            == card_pixels(plan[j].0, placed[j]@[k].index, front, back),
{
    let t = lemma_entry_position(placed, plan, front, back, j, k);
    lemma_stored_entry(images, placed_entries(placed, plan, front, back), t);
}

/// A document ready to be drawn: its images are stored, and the plan says where each goes.
#[derive(Debug)]
pub struct PreparedDocument {
    pub doc: printpdf::PdfDocument,
    pub side_size: usize,
    pub pages: Vec<PagePlan>,
    pub images: Vec<Vec<PlacedImage>>,
}

proof fn lemma_plan_indices(front_len: usize, back_len: usize, s: nat)
    requires
        s >= 1,
    ensures
        indices_in_range(planned_pages(front_len, back_len, s), front_len as nat, back_len as nat),
{
    let fitems = in_order(front_len as nat);
    let bitems = back_order(front_len, back_len);
    let fronts = paged(fitems, s);
    let backs = mirrored(paged(bitems, s));
    let plan = planned_pages(front_len, back_len, s);
    assert forall|j: int, r: int, c: int|
        0 <= j < plan.len() && 0 <= r < plan[j].1.len() && 0 <= c < plan[j].1[r].len() implies match #[trigger] plan[j].1[r][c] {
            Some(i) => i < if plan[j].0 == CardSide::Front {
                front_len as nat
            } else {
                back_len as nat
            },
            None => true,
        } by {
        let m = if fronts.len() <= backs.len() { fronts.len() } else { backs.len() };
        if j < 2 * m && j % 2 == 1 {
            let p = j / 2;
            let row = paged(bitems, s)[p][r];
            assert(plan[j].1 == backs[p]);
            assert(backs[p][r] == row.reverse());
            assert(plan[j].1[r][c] == row[row.len() - 1 - c]);
        } else {
            let p = if j < 2 * m { j / 2 } else { j - m };
            assert(plan[j].1 == fronts[p]);
        }
    }
}

impl crate::writer::CardWriter {
    /// Lays out `front_images` and `back_images` on `side_size` x `side_size` pages (see
    /// `planned_pages`), then decodes each placed image and stores it in a new document,
    /// which holds exactly those images, each under the id placed for its cell.
    /// Fails on a grid size outside 1..=20, or with the first image that does not decode.
    pub fn prepare_document(
        front_images: &Vec<CardImage>,
        back_images: &Vec<CardImage>,
        side_size: usize,
    ) -> (r: Result<PreparedDocument, CardsError>)
        requires
            back_images@.len() + duplicate_count(front_images@.len() as usize, back_images@.len() as usize) <= usize::MAX,
        ensures
            !valid_grid_size(side_size) ==> (r matches Err(e) && e == CardsError::InvalidGridSize(side_size)),
            valid_grid_size(side_size) ==> {
                let plan = planned_pages(front_images@.len() as usize, back_images@.len() as usize, side_size as nat);
                &&& (r is Ok <==> all_cards_decode(plan, front_images@, back_images@))
                &&& r matches Ok(d) ==> {
                    &&& d.side_size == side_size
                    &&& plan_view(d.pages@) == plan
                    &&& all_placed(plan, front_images@, back_images@, d.images@)
                    &&& doc_images(d.doc) == insert_all(no_images(), placed_entries(d.images@, plan, front_images@, back_images@))
                }
                &&& r matches Err(e) ==> first_decode_failure(plan, front_images@, back_images@, e)
            },
    {
        if side_size == 0 || side_size > MAX_GRID_SIZE {
            return Err(CardsError::InvalidGridSize(side_size));
        }
        let mut doc = new_pdf_document("Cards PDF");
        let pages = plan_pages(front_images.len(), back_images.len(), side_size);
        proof {
            lemma_plan_indices(front_images@.len() as usize, back_images@.len() as usize, side_size as nat);
        }
        match place_images(&mut doc, &pages, front_images, back_images) {
            Ok(images) => Ok(PreparedDocument { doc, side_size, pages, images }),
            Err(e) => Err(e),
        }
    }
}

} // verus!
