use vstd::prelude::*;
use vstd::string::*;
use vstd::utf8::encode_utf8;
use crate::error::CardsError;
use crate::layout::reverse_row;
use crate::writer::CardImage;

verus! {

broadcast use vstd::string::group_string_axioms;

/// The characters of `s`.
pub fn chars_of(s: &str) -> (v: Vec<char>)
    ensures
        v@ == s@,
{
    let mut v: Vec<char> = Vec::new();
    for ch in it: s.chars()
        invariant
            v@ == it.seq().take(it.index() as int),
    {
        v.push(ch);
    }
    v
}


/// Index of the last `ch` in `name`, or -1 when there is none.
pub open spec fn last_index_of(name: Seq<char>, ch: char) -> int
    decreases name.len(),
{
    if name.len() == 0 {
        -1
    } else if name.last() == ch {
        name.len() - 1
    } else {
        last_index_of(name.drop_last(), ch)
    }
}

/// The extensions of the images the library reads.
pub open spec fn is_image_extension(ext: Seq<char>) -> bool {
    ext == "png"@ || ext == "jpg"@ || ext == "jpeg"@
}

/// A file name whose extension (what follows its last '.', when that dot does not start
/// the name, as for `std::path::Path::extension`) is `png`, `jpg` or `jpeg`; case matters.
pub open spec fn is_image_file_name(name: Seq<char>) -> bool {
    let k = last_index_of(name, '.');
    k > 0 && is_image_extension(name.subrange(k + 1, name.len() as int))
}

/// ASCII upper case letters lowered; every other character kept.
pub open spec fn ascii_lower(c: char) -> char {
    if 'A' <= c <= 'Z' {
        ((c as u32) + 32) as char
    } else {
        c
    }
}

/// A file name inside an archive whose last '.'-separated part (the whole name when it has
/// no '.') is `png`, `jpg` or `jpeg` in any letter case. (Lowering ASCII letters decides this
/// exactly as Unicode lower-casing does: no other character lowers to one of these letters.)
pub open spec fn is_archive_image_name(name: Seq<char>) -> bool {
    let k = last_index_of(name, '.');
    is_image_extension(name.subrange(k + 1, name.len() as int).map_values(|c: char| ascii_lower(c)))
}

/// `k` is the last position of `ch` in `name` (or -1 when there is none).
pub proof fn lemma_last_index(name: Seq<char>, ch: char, k: int)
    requires
        -1 <= k < name.len(),
        k >= 0 ==> name[k] == ch,
        forall|j: int| k < j < name.len() ==> name[j] != ch,
    ensures
        last_index_of(name, ch) == k,
    decreases name.len(),
{
    if name.len() > 0 && name.last() != ch {
        lemma_last_index(name.drop_last(), ch, k);
    }
}

/// Finds the last `ch` among the first `end` characters of `chars`.
pub fn find_last(chars: &Vec<char>, end: usize, ch: char) -> (k: Option<usize>)
    requires
        end <= chars@.len(),
    ensures
        match k {
            Some(i) => i < end && last_index_of(chars@.take(end as int), ch) == i as int,
            None => last_index_of(chars@.take(end as int), ch) == -1,
        },
{
    let ghost prefix = chars@.take(end as int);
    let mut i = end;
    while i > 0
        invariant
            i <= end <= chars@.len(),
            prefix == chars@.take(end as int),
            forall|j: int| i <= j < end ==> chars@[j] != ch,
        decreases i,
    {
        if chars[i - 1] == ch {
            proof {
                lemma_last_index(prefix, ch, i - 1);
            }
            return Some(i - 1);
        }
        i = i - 1;
    }
    proof {
        lemma_last_index(prefix, ch, -1);
    }
    None
}

/// Finds the last '.' of `chars`.
fn find_last_dot(chars: &Vec<char>) -> (k: Option<usize>)
    ensures
        chars@.len() <= usize::MAX,
        match k {
            Some(i) => i < chars@.len() && last_index_of(chars@, '.') == i as int,
            None => last_index_of(chars@, '.') == -1,
        },
{
    let r = find_last(chars, chars.len(), '.');
    assert(chars@.take(chars@.len() as int) =~= chars@);
    r
}

/// Whether `chars[from..]` is one of the image extensions, with ASCII letters lowered
/// first when `fold_case` holds.
fn matches_image_extension(chars: &Vec<char>, from: usize, fold_case: bool) -> (b: bool)
    requires
        from <= chars@.len(),
    ensures
        b == is_image_extension(
            if fold_case {
                chars@.subrange(from as int, chars@.len() as int).map_values(|c: char| ascii_lower(c))
            } else {
                chars@.subrange(from as int, chars@.len() as int)
            },
        ),
{
    proof {
        reveal_strlit("png");
        reveal_strlit("jpg");
        reveal_strlit("jpeg");
    }
    let ghost ext = if fold_case {
        chars@.subrange(from as int, chars@.len() as int).map_values(|c: char| ascii_lower(c))
    } else {
        chars@.subrange(from as int, chars@.len() as int)
    };
    let n = chars.len() - from;
    let mut lowered: Vec<char> = Vec::new();
    let mut i: usize = from;
    while i < chars.len()
        invariant
            from <= i <= chars@.len(),
            lowered@.len() == i - from,
            forall|j: int| 0 <= j < lowered@.len() ==> #[trigger] lowered@[j] == ext[j],
            ext.len() == chars@.len() - from,
            ext == (if fold_case {
                chars@.subrange(from as int, chars@.len() as int).map_values(|c: char| ascii_lower(c))
            } else {
                chars@.subrange(from as int, chars@.len() as int)
            }),
        decreases chars.len() - i,
    {
        let c = chars[i];
        let l = if fold_case && 'A' <= c && c <= 'Z' {
            match c {
                'A' => 'a', 'B' => 'b', 'C' => 'c', 'D' => 'd', 'E' => 'e', 'F' => 'f',
                'G' => 'g', 'H' => 'h', 'I' => 'i', 'J' => 'j', 'K' => 'k', 'L' => 'l',
                'M' => 'm', 'N' => 'n', 'O' => 'o', 'P' => 'p', 'Q' => 'q', 'R' => 'r',
                'S' => 's', 'T' => 't', 'U' => 'u', 'V' => 'v', 'W' => 'w', 'X' => 'x',
                'Y' => 'y', _ => 'z',
            }
        } else {
            c
        };
        lowered.push(l);
        i = i + 1;
    }
    assert(lowered@ =~= ext);
    let is_png = n == 3 && lowered[0] == 'p' && lowered[1] == 'n' && lowered[2] == 'g';
    let is_jpg = n == 3 && lowered[0] == 'j' && lowered[1] == 'p' && lowered[2] == 'g';
    let is_jpeg = n == 4 && lowered[0] == 'j' && lowered[1] == 'p' && lowered[2] == 'e'
        && lowered[3] == 'g';
    proof {
        if is_png {
            assert(ext =~= "png"@);
        }
        if is_jpg {
            assert(ext =~= "jpg"@);
        }
        if is_jpeg {
            assert(ext =~= "jpeg"@);
        }
        if ext == "png"@ {
            assert(ext[0] == 'p' && ext[1] == 'n' && ext[2] == 'g');
        }
        if ext == "jpg"@ {
            assert(ext[0] == 'j' && ext[1] == 'p' && ext[2] == 'g');
        }
        if ext == "jpeg"@ {
            assert(ext[0] == 'j' && ext[1] == 'p' && ext[2] == 'e' && ext[3] == 'g');
        }
    }
    is_png || is_jpg || is_jpeg
}

/// Whether a file name has one of the image extensions `png`, `jpg`, `jpeg` (case
/// sensitive), as `std::path::Path::extension` splits it.
pub fn has_image_extension(file_name: &str) -> (b: bool)
    ensures
        b == is_image_file_name(file_name@),
{
    let chars = chars_of(file_name);
    match find_last_dot(&chars) {
        Some(k) => {
            if k == 0 {
                false
            } else {
                matches_image_extension(&chars, k + 1, false)
            }
        },
        None => false,
    }
}

/// Whether a file name inside an archive ends in `png`, `jpg` or `jpeg` after its last
/// '.', in any letter case (the whole name counts when it has no '.').
pub fn has_archive_image_extension(file_name: &str) -> (b: bool)
    ensures
        b == is_archive_image_name(file_name@),
{
    let chars = chars_of(file_name);
    match find_last_dot(&chars) {
        Some(k) => matches_image_extension(&chars, k + 1, true),
        None => matches_image_extension(&chars, 0, true),
    }
}

/// A directory entry as listed: its file name and whether it is a regular file.
#[derive(Debug)]
pub struct DirEntryInfo {
    pub file_name: String,
    pub is_file: bool,
}

/// A directory entry that is a card image: a file with an image extension.
pub open spec fn is_card_entry(e: DirEntryInfo) -> bool {
    e.is_file && is_image_file_name(e.file_name@)
}

/// Whether a listed entry is a card image file.
pub fn is_card_image_entry(entry: &DirEntryInfo) -> (b: bool)
    ensures
        b == is_card_entry(*entry),
{
    entry.is_file && has_image_extension(entry.file_name.as_str())
}

/// How many listed entries are card image files.
pub fn count_card_images(entries: &Vec<DirEntryInfo>) -> (n: usize)
    ensures
        n == entries@.filter(|e: DirEntryInfo| is_card_entry(e)).len(),
{
    let ghost pred = |e: DirEntryInfo| is_card_entry(e);
    let mut n: usize = 0;
    let mut i: usize = 0;
    while i < entries.len()
        invariant
            i <= entries@.len(),
            n <= i,
            n == entries@.take(i as int).filter(pred).len(),
            pred == (|e: DirEntryInfo| is_card_entry(e)),
        decreases entries.len() - i,
    {
        proof {
            assert(entries@.take(i + 1) == entries@.take(i as int).push(entries@[i as int]));
            entries@.take(i as int).lemma_filter_push(entries@[i as int], pred);
        }
        if is_card_image_entry(&entries[i]) {
            n = n + 1;
        }
        i = i + 1;
    }
    assert(entries@.take(i as int) == entries@);
    n
}


/// Byte strings in lexicographic order (a proper prefix comes first), as `str` compares.
pub open spec fn lex_le(a: Seq<u8>, b: Seq<u8>) -> bool
    decreases a.len(),
{
    if a.len() == 0 {
        true
    } else if b.len() == 0 {
        false
    } else if a[0] != b[0] {
        a[0] < b[0]
    } else {
        lex_le(a.drop_first(), b.drop_first())
    }
}

/// The UTF-8 bytes of an image's name, by which images are ordered.
pub open spec fn name_key(image: CardImage) -> Seq<u8> {
    encode_utf8(image.name@)
}

/// The images are in order of their names.
pub open spec fn sorted_by_name(images: Seq<CardImage>) -> bool {
    forall|i: int, j: int| 0 <= i < j < images.len() ==> lex_le(name_key(#[trigger] images[i]), name_key(#[trigger] images[j]))
}

/// The images whose name has the bytes `key`, in the order in which they come.
pub open spec fn named(images: Seq<CardImage>, key: Seq<u8>) -> Seq<CardImage> {
    images.filter(|x: CardImage| name_key(x) == key)
}

/// `sorted` lists the images of `images`, and images of the same name keep their order.
pub open spec fn same_images_by_name(sorted: Seq<CardImage>, images: Seq<CardImage>) -> bool {
    forall|key: Seq<u8>| #[trigger] named(sorted, key) == named(images, key)
}

pub proof fn lemma_lex_total(a: Seq<u8>, b: Seq<u8>)
    ensures
        lex_le(a, b) || lex_le(b, a),
    decreases a.len(),
{
    if a.len() > 0 && b.len() > 0 && a[0] == b[0] {
        lemma_lex_total(a.drop_first(), b.drop_first());
    }
}

pub proof fn lemma_lex_trans(a: Seq<u8>, b: Seq<u8>, c: Seq<u8>)
    requires
        lex_le(a, b),
        lex_le(b, c),
    ensures
        lex_le(a, c),
    decreases a.len(),
{
    if a.len() > 0 && b.len() > 0 && c.len() > 0 && a[0] == b[0] && b[0] == c[0] {
        lemma_lex_trans(a.drop_first(), b.drop_first(), c.drop_first());
    }
}

pub proof fn lemma_lex_antisym(a: Seq<u8>, b: Seq<u8>)
    requires
        lex_le(a, b),
        lex_le(b, a),
    ensures
        a == b,
    decreases a.len(),
{
    if a.len() > 0 && b.len() > 0 {
        lemma_lex_antisym(a.drop_first(), b.drop_first());
        assert(a =~= seq![a[0]] + a.drop_first());
        assert(b =~= seq![b[0]] + b.drop_first());
    }
}

/// Whether `a` comes before `b` or equals it, byte by byte.
fn bytes_le(a: &[u8], b: &[u8]) -> (r: bool)
    ensures
        r == lex_le(a@, b@),
{
    let mut i: usize = 0;
    proof {
        assert(a@.skip(0) =~= a@);
        assert(b@.skip(0) =~= b@);
    }
    while i < a.len() && i < b.len()
        invariant
            i <= a@.len(),
            i <= b@.len(),
            lex_le(a@, b@) == lex_le(a@.skip(i as int), b@.skip(i as int)),
        decreases a.len() - i,
    {
        if a[i] != b[i] {
            return a[i] < b[i];
        }
        proof {
            assert(a@.skip(i as int).drop_first() =~= a@.skip(i + 1));
            assert(b@.skip(i as int).drop_first() =~= b@.skip(i + 1));
        }
        i = i + 1;
    }
    i == a.len()
}

/// Whether image `a`'s name comes before image `b`'s name or equals it.
fn name_le(a: &CardImage, b: &CardImage) -> (r: bool)
    ensures
        r == lex_le(name_key(*a), name_key(*b)),
{
    bytes_le(a.name.as_str().as_bytes(), b.name.as_str().as_bytes())
}

/// Sorts images by name; images with the same name keep their order.
pub fn sort_by_name(images: Vec<CardImage>) -> (sorted: Vec<CardImage>)
    ensures
        sorted@.len() == images@.len(),
        sorted_by_name(sorted@),
        same_images_by_name(sorted@, images@),
{
    let ghost items = images@;
    let ghost n = items.len() as int;
    let mut rest = reverse_row(images);
    let mut out: Vec<CardImage> = Vec::new();
    let ghost mut i: int = 0;
    proof {
        assert forall|key: Seq<u8>| #[trigger] named(out@, key) == named(items.take(0), key) by {
            reveal(Seq::filter);
            assert(items.take(0) =~= out@);
        }
    }
    while rest.len() > 0
        invariant
            n == items.len(),
            0 <= i <= n,
            rest@.len() == n - i,
            forall|q: int| 0 <= q < rest@.len() ==> rest@[q] == items[n - 1 - q],
            out@.len() == i,
            sorted_by_name(out@),
            same_images_by_name(out@, items.take(i)),
        decreases rest.len(),
    {
        let x = rest.pop().unwrap();
        proof {
            assert(x == items[i]);
        }
        let mut p = out.len();
        while p > 0 && !name_le(&out[p - 1], &x)
            invariant
                p <= out@.len(),
                forall|q: int| p <= q < out@.len() ==> !lex_le(name_key(#[trigger] out@[q]), name_key(x)),
            decreases p,
        {
            p = p - 1;
        }
        let ghost old_out = out@;
        out.insert(p, x);
        proof {
            let kx = name_key(x);
            assert(out@ == old_out.take(p as int) + seq![x] + old_out.skip(p as int));
            assert(old_out == old_out.take(p as int) + old_out.skip(p as int));
            // the earlier images do not come after x
            assert forall|q: int| 0 <= q < p implies lex_le(name_key(#[trigger] old_out[q]), kx) by {
                if q < p - 1 {
                    lemma_lex_trans(name_key(old_out[q]), name_key(old_out[p - 1]), kx);
                }
            }
            // the later images come strictly after x
            assert forall|q: int| p <= q < old_out.len() implies lex_le(kx, name_key(#[trigger] old_out[q])) && name_key(old_out[q]) != kx by {
                lemma_lex_total(kx, name_key(old_out[q]));
            }
            assert forall|a: int, b: int| 0 <= a < b < out@.len() implies lex_le(name_key(#[trigger] out@[a]), name_key(#[trigger] out@[b])) by {
                if b < p {
                } else if b == p {
                } else if a < p {
                    lemma_lex_trans(name_key(old_out[a]), kx, name_key(old_out[b - 1]));
                } else if a == p {
                } else {
                }
            }
            let taken = items.take(i + 1);
            assert(taken == items.take(i).push(x));
            assert forall|key: Seq<u8>| #[trigger] named(out@, key) == named(taken, key) by {
                let pred = |y: CardImage| name_key(y) == key;
                let front = old_out.take(p as int);
                let back = old_out.skip(p as int);
                Seq::filter_distributes_over_add(front, back, pred);
                Seq::filter_distributes_over_add(front + seq![x], back, pred);
                Seq::filter_distributes_over_add(front, seq![x], pred);
                items.take(i).lemma_filter_push(x, pred);
                reveal_with_fuel(Seq::filter, 2);
                assert(named(old_out, key) == named(items.take(i), key));
                if kx == key {
                    assert(back.filter(pred) =~= Seq::<CardImage>::empty()) by {
                        if back.filter(pred).len() > 0 {
                            let y = back.filter(pred)[0];
                            back.lemma_filter_pred(pred, 0);
                            back.lemma_filter_contains_rev(pred, y);
                            let q = choose|q: int| 0 <= q < back.len() && back[q] == y;
                            assert(old_out[p + q] == y);
                        }
                    }
                }
            }
            i = i + 1;
        }
    }
    proof {
        assert(items.take(n) =~= items);
    }
    out
}

proof fn lemma_named_nonempty(images: Seq<CardImage>)
    ensures
        images.len() > 0 ==> named(images, name_key(images[0])).len() > 0,
{
    if images.len() > 0 {
        let pred = |x: CardImage| name_key(x) == name_key(images[0]);
        images.lemma_filter_contains(pred, 0);
    }
}

/// Sorts the images read from `images_path` by name, failing with `NoImagesFound` when
/// there are none.
pub fn sorted_card_images(images: Vec<CardImage>, images_path: &str) -> (r: Result<Vec<CardImage>, CardsError>)
    ensures
        images@.len() == 0 ==> (r matches Err(e) && e matches CardsError::NoImagesFound(p) && p@ == images_path@),
        images@.len() > 0 ==> (r matches Ok(sorted) && sorted@.len() == images@.len() && sorted_by_name(sorted@)
            && same_images_by_name(sorted@, images@)),
{
    let sorted = sort_by_name(images);
    proof {
        lemma_named_nonempty(images@);
        lemma_named_nonempty(sorted@);
        if images@.len() > 0 {
            assert(named(sorted@, name_key(images@[0])) == named(images@, name_key(images@[0])));
            sorted@.lemma_filter_len(|x: CardImage| name_key(x) == name_key(images@[0]));
        }
        if sorted@.len() > 0 {
            assert(named(sorted@, name_key(sorted@[0])) == named(images@, name_key(sorted@[0])));
            images@.lemma_filter_len(|x: CardImage| name_key(x) == name_key(sorted@[0]));
        }
    }
    if sorted.len() == 0 {
        return Err(CardsError::NoImagesFound(String::from_str(images_path)));
    }
    Ok(sorted)
}

/// A card image as plain values: its name and its bytes.
pub open spec fn card_view(c: CardImage) -> (Seq<char>, Seq<u8>) {
    (c.name@, c.data@)
}

/// Card images as plain values.
pub open spec fn card_views(cards: Seq<CardImage>) -> Seq<(Seq<char>, Seq<u8>)> {
    cards.map_values(|c: CardImage| card_view(c))
}

/// `sorted` holds, ordered by name, images with the names and bytes of `views`; images with
/// the same name keep the order of `views`.
pub open spec fn sorted_from(sorted: Seq<CardImage>, views: Seq<(Seq<char>, Seq<u8>)>) -> bool {
    &&& sorted_by_name(sorted)
    &&& exists|unsorted: Seq<CardImage>|
        #[trigger] card_views(unsorted) == views && same_images_by_name(
            sorted,
            unsorted,
        )
}

/// The positions of the card image files among listed entries, in listing order.
pub open spec fn card_indices(entries: Seq<DirEntryInfo>) -> Seq<int>
    decreases entries.len(),
{
    if entries.len() == 0 {
        seq![]
    } else if is_card_entry(entries.last()) {
        card_indices(entries.drop_last()).push(entries.len() - 1)
    } else {
        card_indices(entries.drop_last())
    }
}

proof fn lemma_card_indices(entries: Seq<DirEntryInfo>)
    ensures
        forall|t: int|
            0 <= t < card_indices(entries).len() ==> {
                &&& 0 <= #[trigger] card_indices(entries)[t] < entries.len()
                &&& is_card_entry(entries[card_indices(entries)[t]])
            },
        card_indices(entries).len() <= entries.len(),
    decreases entries.len(),
{
    if entries.len() > 0 {
        let rest = entries.drop_last();
        lemma_card_indices(rest);
        assert forall|t: int| 0 <= t < card_indices(entries).len() implies {
            &&& 0 <= #[trigger] card_indices(entries)[t] < entries.len()
            &&& is_card_entry(entries[card_indices(entries)[t]])
        } by {
            if t < card_indices(rest).len() {
                assert(card_indices(entries)[t] == card_indices(rest)[t]);
                assert(entries[card_indices(rest)[t]] == rest[card_indices(rest)[t]]);
            }
        }
    }
}

/// The positions of the card image files among the listed entries.
pub fn card_file_indices(entries: &Vec<DirEntryInfo>) -> (ix: Vec<usize>)
    ensures
        ix@.len() == card_indices(entries@).len(),
        forall|t: int| 0 <= t < ix@.len() ==> #[trigger] ix@[t] == card_indices(entries@)[t],
{
    let mut ix: Vec<usize> = Vec::new();
    let mut i: usize = 0;
    proof {
        assert(entries@.take(0) =~= Seq::<DirEntryInfo>::empty());
    }
    while i < entries.len()
        invariant
            i <= entries@.len(),
            ix@.len() == card_indices(entries@.take(i as int)).len(),
            forall|t: int| 0 <= t < ix@.len() ==> #[trigger] ix@[t] == card_indices(entries@.take(i as int))[t],
        decreases entries.len() - i,
    {
        proof {
            assert(entries@.take(i + 1).drop_last() =~= entries@.take(i as int));
            assert(entries@.take(i + 1).last() == entries@[i as int]);
        }
        if is_card_image_entry(&entries[i]) {
            ix.push(i);
        }
        i = i + 1;
    }
    proof {
        assert(entries@.take(i as int) =~= entries@);
    }
    ix
}

/// The card image files of a listing as plain values: each one's name, with the bytes read
/// from it (`files` holds them in listing order).
pub open spec fn listed_images(entries: Seq<DirEntryInfo>, files: Seq<Vec<u8>>) -> Seq<(Seq<char>, Seq<u8>)> {
    Seq::new(
        card_indices(entries).len(),
        |t: int| (entries[card_indices(entries)[t]].file_name@, files[t]@),
    )
}

/// Turns the card image files of a listing, with their bytes, into the folder's images
/// sorted by name; a folder without any fails with `NoImagesFound`.
pub fn load_card_images(entries: &Vec<DirEntryInfo>, files: Vec<Vec<u8>>, images_path: &str) -> (r: Result<
    Vec<CardImage>,
    CardsError,
>)
    requires
        files@.len() == card_indices(entries@).len(),
    ensures
        card_indices(entries@).len() == 0 ==> (r matches Err(e) && e matches CardsError::NoImagesFound(p) && p@
            == images_path@),
        card_indices(entries@).len() > 0 ==> (r matches Ok(images) && images@.len() == card_indices(entries@).len()
            && sorted_from(images@, listed_images(entries@, files@))),
{
    proof {
        lemma_card_indices(entries@);
    }
    let ghost views = listed_images(entries@, files@);
    let ghost all_files = files@;
    let ix = card_file_indices(entries);
    let mut rest = reverse_row(files);
    let mut images: Vec<CardImage> = Vec::new();
    let mut t: usize = 0;
    while t < ix.len()
        invariant
            t <= ix@.len(),
            ix@.len() == card_indices(entries@).len(),
            forall|q: int| 0 <= q < ix@.len() ==> #[trigger] ix@[q] == card_indices(entries@)[q],
            forall|q: int| 0 <= q < card_indices(entries@).len() ==> 0 <= #[trigger] card_indices(entries@)[q] < entries@.len(),
            all_files.len() == ix@.len(),
            rest@.len() == all_files.len() - t,
            forall|q: int| 0 <= q < rest@.len() ==> rest@[q] == all_files[all_files.len() - 1 - q],
            views == listed_images(entries@, all_files),
            images@.len() == t,
            card_views(images@) == views.take(t as int),
        decreases ix.len() - t,
    {
        let data = rest.pop().unwrap();
        let k = ix[t];
        proof {
            assert(0 <= card_indices(entries@)[t as int] < entries@.len());
        }
        let name = entries[k].file_name.clone();
        let ghost before = images@;
        images.push(CardImage { name, data });
        proof {
            assert(card_views(images@) =~= card_views(before).push(views[t as int]));
            assert(views.take(t + 1) =~= views.take(t as int).push(views[t as int]));
        }
        t = t + 1;
    }
    proof {
        assert(views.take(t as int) =~= views);
    }
    let ghost unsorted = images@;
    let r = sorted_card_images(images, images_path);
    proof {
        assert(card_views(unsorted) == views);
    }
    r
}

/// The count a window shows for a folder is the number of images loaded from it: the count
/// of a listing equals the number of images `load_card_images` gives for it.
pub proof fn lemma_count_is_loaded(entries: Seq<DirEntryInfo>, files: Seq<Vec<u8>>, loaded: Seq<CardImage>)
    requires
        loaded.len() == card_indices(entries).len(),
        sorted_from(loaded, listed_images(entries, files)),
    ensures
        entries.filter(|e: DirEntryInfo| is_card_entry(e)).len() == loaded.len(),
{
    lemma_filter_is_card_indices(entries);
}

proof fn lemma_filter_is_card_indices(entries: Seq<DirEntryInfo>)
    ensures
        entries.filter(|e: DirEntryInfo| is_card_entry(e)).len() == card_indices(entries).len(),
    decreases entries.len(),
{
    let pred = |e: DirEntryInfo| is_card_entry(e);
    if entries.len() > 0 {
        let rest = entries.drop_last();
        lemma_filter_is_card_indices(rest);
        assert(entries == rest.push(entries.last()));
        rest.lemma_filter_push(entries.last(), pred);
    } else {
        assert(entries.filter(pred) =~= Seq::<DirEntryInfo>::empty()) by {
            reveal(Seq::filter);
        }
    }
}


/// Each card image file of a listing is read exactly once, in listing order: the positions
/// chosen are strictly increasing, and a position is chosen exactly when the entry there is
/// a card image file.
pub proof fn lemma_card_indices_exact(entries: Seq<DirEntryInfo>)
    ensures
        forall|t: int, u: int|
            0 <= t < u < card_indices(entries).len() ==> #[trigger] card_indices(entries)[t]
                < #[trigger] card_indices(entries)[u],
        forall|i: int|
            0 <= i < entries.len() ==> (is_card_entry(#[trigger] entries[i]) <==> card_indices(
                entries,
            ).contains(i)),
        forall|t: int|
            0 <= t < card_indices(entries).len() ==> 0 <= #[trigger] card_indices(entries)[t] < entries.len(),
    decreases entries.len(),
{
    if entries.len() > 0 {
        let rest = entries.drop_last();
        lemma_card_indices_exact(rest);
        let ci = card_indices(entries);
        let cr = card_indices(rest);
        let last = entries.len() - 1;
        assert forall|i: int| 0 <= i < entries.len() implies (is_card_entry(#[trigger] entries[i]) <==> ci.contains(i)) by {
            if i < last {
                assert(entries[i] == rest[i]);
                if is_card_entry(entries[i]) {
                    let t = choose|t: int| 0 <= t < cr.len() && cr[t] == i;
                    assert(ci[t] == i);
                }
                if ci.contains(i) {
                    let t = choose|t: int| 0 <= t < ci.len() && ci[t] == i;
                    if t < cr.len() {
                        assert(cr[t] == i);
                    }
                }
            } else {
                if is_card_entry(entries[i]) {
                    assert(ci[ci.len() - 1] == i);
                }
                if ci.contains(i) {
                    let t = choose|t: int| 0 <= t < ci.len() && ci[t] == i;
                    if t < cr.len() {
                        assert(cr[t] == i);
                        assert(cr[t] < rest.len());
                    }
                }
            }
        }
    }
}

} // verus!
