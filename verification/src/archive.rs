use vstd::prelude::*;
use vstd::string::*;
use std::io::Read;
use crate::images::{
    card_view, card_views, chars_of, find_last, has_archive_image_extension, is_archive_image_name,
    last_index_of, lemma_last_index, sort_by_name, sorted_from,
};
use crate::writer::CardImage;

verus! {

#[verifier::external_type_specification]
#[verifier::external_body]
#[verifier::reject_recursive_types(T)]
pub struct ExCursor<T>(std::io::Cursor<T>);

#[verifier::external_type_specification]
#[verifier::external_body]
#[verifier::reject_recursive_types(R)]
pub struct ExZipArchive<R>(zip::ZipArchive<R>);

/// An archive read from bytes in memory.
pub type MemoryArchive = zip::ZipArchive<std::io::Cursor<Vec<u8>>>;

/// Why the contents of an archive entry could not be read.
pub enum EntryReadFailure {
    /// The entry could not be opened (the archive's error text).
    Open(Seq<char>),
    /// Its data could not be read (the I/O error text).
    Read(Seq<char>),
}

/// What an archive tells of one of its entries: opening it gives its name (or the error
/// text of decoding the name) and whether it is a folder, or the error text; reading it
/// gives its bytes or a failure.
pub struct ArchiveEntry {
    pub header: Result<(Result<Seq<char>, Seq<char>>, bool), Seq<char>>,
    pub contents: Result<Seq<u8>, EntryReadFailure>,
}

/// What `zip::ZipArchive::new` makes of these bytes: the entries of the archive, or the
/// error text.
pub uninterp spec fn zip_listing(bytes: Seq<u8>) -> Result<Seq<ArchiveEntry>, Seq<char>>;

/// The entries of an opened archive.
pub uninterp spec fn zip_contents(archive: MemoryArchive) -> Seq<ArchiveEntry>;

/// `zip::ZipArchive::new` over the bytes: the archive holds the entries that
/// `zip_listing` names for the bytes, or the error is the text it names.
#[verifier::external_body]
fn open_zip(bytes: Vec<u8>) -> (r: Result<MemoryArchive, String>)
    ensures
        match r {
            Ok(a) => zip_listing(bytes@) == Ok::<Seq<ArchiveEntry>, Seq<char>>(zip_contents(a)),
            Err(e) => zip_listing(bytes@) == Err::<Seq<ArchiveEntry>, Seq<char>>(e@),
        },
{
    match zip::ZipArchive::new(std::io::Cursor::new(bytes)) {
        Ok(archive) => Ok(archive),
        Err(e) => Err(e.to_string()),
    }
}

/// `zip::ZipArchive::len`: the number of entries.
#[verifier::external_body]
fn zip_len(archive: &MemoryArchive) -> (n: usize)
    ensures
        n == zip_contents(*archive).len(),
{
    archive.len()
}

/// The view of what opening an entry gave.
pub open spec fn header_view(r: Result<(Result<String, String>, bool), String>) -> Result<
    (Result<Seq<char>, Seq<char>>, bool),
    Seq<char>,
> {
    match r {
        Ok((Ok(name), is_dir)) => Ok((Ok(name@), is_dir)),
        Ok((Err(e), is_dir)) => Ok((Err(e@), is_dir)),
        Err(e) => Err(e@),
    }
}

/// `zip::ZipArchive::by_index`, with the entry's `name` and `is_dir`: what the archive
/// holds for entry `i`. Opening an entry leaves the entries as they are.
#[verifier::external_body]
fn zip_entry_header(archive: &mut MemoryArchive, i: usize) -> (r: Result<(Result<String, String>, bool), String>)
    requires
        i < zip_contents(*old(archive)).len(),
    ensures
        zip_contents(*final(archive)) == zip_contents(*old(archive)),
        header_view(r) == zip_contents(*old(archive))[i as int].header,
{
    match archive.by_index(i) {
        Ok(file) => {
            let name = match file.name() {
                Ok(name) => Ok(name.to_string()),
                Err(e) => Err(e.to_string()),
            };
            Ok((name, file.is_dir()))
        },
        Err(e) => Err(e.to_string()),
    }
}

/// How reading an entry failed, as text.
pub enum ReadFailureText {
    Open(String),
    Read(String),
}

/// The view of what reading an entry gave.
pub open spec fn contents_view(r: Result<Vec<u8>, ReadFailureText>) -> Result<Seq<u8>, EntryReadFailure> {
    match r {
        Ok(data) => Ok(data@),
        Err(ReadFailureText::Open(e)) => Err(EntryReadFailure::Open(e@)),
        Err(ReadFailureText::Read(e)) => Err(EntryReadFailure::Read(e@)),
    }
}

/// `zip::ZipArchive::by_index` and `read_to_end` on the entry: the bytes of entry `i`, as
/// the archive holds them. Reading leaves the entries as they are.
#[verifier::external_body]
fn zip_entry_contents(archive: &mut MemoryArchive, i: usize) -> (r: Result<Vec<u8>, ReadFailureText>)
    requires
        i < zip_contents(*old(archive)).len(),
    ensures
        zip_contents(*final(archive)) == zip_contents(*old(archive)),
        contents_view(r) == zip_contents(*old(archive))[i as int].contents,
{
    match archive.by_index(i) {
        Ok(mut file) => {
            let mut data = Vec::new();
            match file.read_to_end(&mut data) {
                Ok(_) => Ok(data),
                Err(e) => Err(ReadFailureText::Read(e.to_string())),
            }
        },
        Err(e) => Err(ReadFailureText::Open(e.to_string())),
    }
}

/// Which folder of the archive an image comes from.
#[derive(Clone, Copy, Debug, PartialEq, Eq, Structural)]
pub enum ArchiveFolder {
    Front,
    Back,
    Other,
}

/// Where an archive entry goes: nowhere for a folder, a name without '/', or a file that is
/// not an image; else the folder right above the file (`front`, `back` or any other) and
/// the file's own name.
pub open spec fn entry_target(name: Seq<char>, is_dir: bool) -> Option<(ArchiveFolder, Seq<char>)> {
    let k = last_index_of(name, '/');
    let file = name.subrange(k + 1, name.len() as int);
    let parent = name.subrange(0, k);
    let folder = parent.subrange(last_index_of(parent, '/') + 1, k);
    if is_dir || k < 0 || !is_archive_image_name(file) {
        None
    } else if folder == "front"@ {
        Some((ArchiveFolder::Front, file))
    } else if folder == "back"@ {
        Some((ArchiveFolder::Back, file))
    } else {
        Some((ArchiveFolder::Other, file))
    }
}

/// Where an archive entry goes (see `entry_target`).
pub fn archive_entry_target(name: &str, is_dir: bool) -> (r: Option<(ArchiveFolder, String)>)
    ensures
        match r {
            Some((folder, file)) => entry_target(name@, is_dir) == Some((folder, file@)),
            None => entry_target(name@, is_dir) is None,
        },
{
    if is_dir {
        return None;
    }
    let chars = chars_of(name);
    let n = name.unicode_len();
    let ghost full = chars@;
    proof {
        assert(chars@.take(n as int) =~= chars@);
    }
    match find_last(&chars, n, '/') {
        None => None,
        Some(k) => {
            let file = name.substring_char(k + 1, n);
            if !has_archive_image_extension(file) {
                return None;
            }
            let start = match find_last(&chars, k, '/') {
                Some(j) => j + 1,
                None => 0,
            };
            proof {
                assert(chars@.take(k as int) =~= full.subrange(0, k as int));
            }
            let folder = String::from_str(name.substring_char(start, k));
            let front = String::from_str("front");
            let back = String::from_str("back");
            proof {
                let parent = name@.subrange(0, k as int);
                assert(parent == chars@.take(k as int));
                assert(start == last_index_of(parent, '/') + 1);
                assert(folder@ == parent.subrange(last_index_of(parent, '/') + 1, k as int));
                assert(k as int == last_index_of(name@, '/'));
                assert(file@ == name@.subrange(k + 1, name@.len() as int));
            }
            if folder == front {
                Some((ArchiveFolder::Front, String::from_str(file)))
            } else if folder == back {
                Some((ArchiveFolder::Back, String::from_str(file)))
            } else {
                Some((ArchiveFolder::Other, String::from_str(file)))
            }
        },
    }
}


/// Goes through the archive entries from entry `k` on, adding each front and back image
/// (by name and bytes) to those collected so far; the first entry that cannot be opened or
/// read ends it with the error text.
pub open spec fn collect_entries(
    entries: Seq<ArchiveEntry>,
    k: int,
    front: Seq<(Seq<char>, Seq<u8>)>,
    back: Seq<(Seq<char>, Seq<u8>)>,
) -> Result<(Seq<(Seq<char>, Seq<u8>)>, Seq<(Seq<char>, Seq<u8>)>), Seq<char>>
    decreases entries.len() - k,
{
    if k < 0 || k >= entries.len() {
        Ok((front, back))
    } else {
        match entries[k].header {
            Err(e) => Err("ZIP error: "@ + e),
            Ok((Err(e), _)) => Err("ZIP error: "@ + e),
            Ok((Ok(name), is_dir)) => match entry_target(name, is_dir) {
                None => collect_entries(entries, k + 1, front, back),
                Some((folder, file)) => match entries[k].contents {
                    Err(EntryReadFailure::Open(e)) => Err("ZIP error: "@ + e),
                    Err(EntryReadFailure::Read(e)) => Err("Failed to read "@ + name + ": "@ + e),
                    Ok(data) => match folder {
                        ArchiveFolder::Front => collect_entries(entries, k + 1, front.push((file, data)), back),
                        ArchiveFolder::Back => collect_entries(entries, k + 1, front, back.push((file, data))),
                        ArchiveFolder::Other => collect_entries(entries, k + 1, front, back),
                    },
                },
            },
        }
    }
}

/// What reading an archive gives: its front and back images sorted by name, or the error
/// text (an unreadable archive, an entry that cannot be read, or no front image).
pub open spec fn archive_result_matches(
    bytes: Seq<u8>,
    r: Result<(Vec<CardImage>, Vec<CardImage>), String>,
) -> bool {
    match zip_listing(bytes) {
        Err(e) => r matches Err(t) && t@ == "Invalid ZIP file: "@ + e,
        Ok(entries) => match collect_entries(entries, 0, seq![], seq![]) {
            Err(e) => r matches Err(t) && t@ == e,
            Ok((front, back)) => if front.len() == 0 {
                r matches Err(t) && t@ == "No images found in front/ folder"@
            } else {
                r matches Ok((f, b)) && sorted_from(f@, front) && sorted_from(b@, back)
            },
        },
    }
}

fn prefixed(prefix: &str, text: &str) -> (r: String)
    ensures
        r@ == prefix@ + text@,
{
    let mut r = String::from_str(prefix);
    r.append(text);
    r
}

/// Reads the front and back card images out of an archive held in memory: the images
/// in `front/` and `back/` folders (at any depth), each sorted by name.
pub fn extract_images_from_zip(zip_bytes: Vec<u8>) -> (r: Result<(Vec<CardImage>, Vec<CardImage>), String>)
    ensures
        archive_result_matches(zip_bytes@, r),
{
    let ghost bytes = zip_bytes@;
    let mut archive = match open_zip(zip_bytes) {
        Ok(a) => a,
        Err(e) => return Err(prefixed("Invalid ZIP file: ", e.as_str())),
    };
    let ghost entries = zip_contents(archive);
    let n = zip_len(&archive);
    let mut front: Vec<CardImage> = Vec::new();
    let mut back: Vec<CardImage> = Vec::new();
    let mut i: usize = 0;
    proof {
        assert(card_views(front@) =~= seq![]);
        assert(card_views(back@) =~= seq![]);
    }
    while i < n
        invariant
            bytes == zip_bytes@,
            zip_listing(bytes) == Ok::<Seq<ArchiveEntry>, Seq<char>>(entries),
            zip_contents(archive) == entries,
            n == entries.len(),
            i <= n,
            collect_entries(entries, 0, seq![], seq![]) == collect_entries(
                entries,
                i as int,
                card_views(front@),
                card_views(back@),
            ),
        decreases n - i,
    {
        let ghost fv = card_views(front@);
        let ghost bv = card_views(back@);
        let header = zip_entry_header(&mut archive, i);
        if let Err(e) = &header {
            let t = prefixed("ZIP error: ", e.as_str());
            proof {
                assert(collect_entries(entries, i as int, fv, bv) == Err::<(Seq<(Seq<char>, Seq<u8>)>, Seq<(Seq<char>, Seq<u8>)>), Seq<char>>(t@));
            }
            return Err(t);
        }
        let (name_result, is_dir) = header.unwrap();
        if let Err(e) = &name_result {
            let t = prefixed("ZIP error: ", e.as_str());
            proof {
                assert(collect_entries(entries, i as int, fv, bv) == Err::<(Seq<(Seq<char>, Seq<u8>)>, Seq<(Seq<char>, Seq<u8>)>), Seq<char>>(t@));
            }
            return Err(t);
        }
        let name = name_result.unwrap();
        proof {
            assert(entries[i as int].header == Ok::<(Result<Seq<char>, Seq<char>>, bool), Seq<char>>((Ok::<Seq<char>, Seq<char>>(name@), is_dir)));
        }
        match archive_entry_target(name.as_str(), is_dir) {
            None => {},
            Some((folder, file_name)) => {
                let contents = zip_entry_contents(&mut archive, i);
                let data = match contents {
                    Ok(data) => data,
                    Err(ReadFailureText::Open(e)) => {
                        let t = prefixed("ZIP error: ", e.as_str());
                        proof {
                            assert(collect_entries(entries, i as int, fv, bv) == Err::<(Seq<(Seq<char>, Seq<u8>)>, Seq<(Seq<char>, Seq<u8>)>), Seq<char>>(t@));
                        }
                        return Err(t);
                    },
                    Err(ReadFailureText::Read(e)) => {
                        let mut text = prefixed("Failed to read ", name.as_str());
                        text.append(": ");
                        text.append(e.as_str());
                        proof {
                            assert(collect_entries(entries, i as int, fv, bv) == Err::<(Seq<(Seq<char>, Seq<u8>)>, Seq<(Seq<char>, Seq<u8>)>), Seq<char>>(text@));
                        }
                        return Err(text);
                    },
                };
                let card = CardImage { name: file_name, data };
                match folder {
                    ArchiveFolder::Front => {
                        front.push(card);
                        proof {
                            assert(card_views(front@) =~= fv.push(card_view(card)));
                        }
                    },
                    ArchiveFolder::Back => {
                        back.push(card);
                        proof {
                            assert(card_views(back@) =~= bv.push(card_view(card)));
                        }
                    },
                    ArchiveFolder::Other => {},
                }
            },
        }
        i = i + 1;
    }
    let ghost fv = card_views(front@);
    let ghost bv = card_views(back@);
    let ghost front_in = front@;
    let ghost back_in = back@;
    let front_sorted = sort_by_name(front);
    let back_sorted = sort_by_name(back);
    proof {
        assert(collect_entries(entries, n as int, fv, bv) == Ok::<(Seq<(Seq<char>, Seq<u8>)>, Seq<(Seq<char>, Seq<u8>)>), Seq<char>>((fv, bv)));
        assert(card_views(front_in) == fv);
        assert(card_views(back_in) == bv);
    }
    if front_sorted.len() == 0 {
        proof {
            reveal_strlit("No images found in front/ folder");
        }
        return Err(String::from_str("No images found in front/ folder"));
    }
    Ok((front_sorted, back_sorted))
}


/// An archive entry that is not a card image: it opens, and it is a folder, a file outside
/// any folder, or a file that is not an image.
pub open spec fn skipped_entry(e: ArchiveEntry) -> bool {
    e.header matches Ok((Ok(name), is_dir)) && entry_target(name, is_dir) is None
}

proof fn lemma_collect_shift(
    entries: Seq<ArchiveEntry>,
    k: int,
    j: int,
    front: Seq<(Seq<char>, Seq<u8>)>,
    back: Seq<(Seq<char>, Seq<u8>)>,
)
    requires
        0 <= k < j,
        k < entries.len(),
    ensures
        collect_entries(entries, j, front, back) == collect_entries(entries.remove(k), j - 1, front, back),
    decreases entries.len() - j,
{
    let rem = entries.remove(k);
    if j < entries.len() {
        assert(rem[j - 1] == entries[j]);
        match entries[j].header {
            Ok((Ok(name), is_dir)) => match entry_target(name, is_dir) {
                None => lemma_collect_shift(entries, k, j + 1, front, back),
                Some((folder, file)) => match entries[j].contents {
                    Ok(data) => match folder {
                        ArchiveFolder::Front => lemma_collect_shift(entries, k, j + 1, front.push((file, data)), back),
                        ArchiveFolder::Back => lemma_collect_shift(entries, k, j + 1, front, back.push((file, data))),
                        ArchiveFolder::Other => lemma_collect_shift(entries, k, j + 1, front, back),
                    },
                    _ => {},
                },
            },
            _ => {},
        }
    }
}

proof fn lemma_collect_skip(
    entries: Seq<ArchiveEntry>,
    k: int,
    i: int,
    front: Seq<(Seq<char>, Seq<u8>)>,
    back: Seq<(Seq<char>, Seq<u8>)>,
)
    requires
        0 <= i <= k < entries.len(),
        skipped_entry(entries[k]),
    ensures
        collect_entries(entries, i, front, back) == collect_entries(entries.remove(k), i, front, back),
    decreases k - i,
{
    let rem = entries.remove(k);
    if i == k {
        lemma_collect_shift(entries, k, k + 1, front, back);
    } else {
        assert(rem[i] == entries[i]);
        match entries[i].header {
            Ok((Ok(name), is_dir)) => match entry_target(name, is_dir) {
                None => lemma_collect_skip(entries, k, i + 1, front, back),
                Some((folder, file)) => match entries[i].contents {
                    Ok(data) => match folder {
                        ArchiveFolder::Front => lemma_collect_skip(entries, k, i + 1, front.push((file, data)), back),
                        ArchiveFolder::Back => lemma_collect_skip(entries, k, i + 1, front, back.push((file, data))),
                        ArchiveFolder::Other => lemma_collect_skip(entries, k, i + 1, front, back),
                    },
                    _ => {},
                },
            },
            _ => {},
        }
    }
}

/// Entries that are not card images do not matter: taking one out of an archive (or putting
/// one in, anywhere) leaves the images read from it, and any error, as they were. Reading
/// goes on past such an entry over the whole archive.
pub proof fn lemma_archive_ignores_other_entries(entries: Seq<ArchiveEntry>, k: int)
    requires
        0 <= k < entries.len(),
        skipped_entry(entries[k]),
    ensures
        collect_entries(entries, 0, seq![], seq![]) == collect_entries(entries.remove(k), 0, seq![], seq![]),
{
    lemma_collect_skip(entries, k, 0, seq![], seq![]);
}

/// The same at the level of archive bytes: when two archives list the same entries but for
/// one that is not a card image, reading them gives the same result.
pub proof fn lemma_archive_result_ignores_other_entries(
    bytes: Seq<u8>,
    fewer: Seq<u8>,
    k: int,
    r: Result<(Vec<CardImage>, Vec<CardImage>), String>,
)
    requires
        zip_listing(bytes) matches Ok(entries) && 0 <= k < entries.len() && skipped_entry(entries[k])
            && zip_listing(fewer) == Ok::<Seq<ArchiveEntry>, Seq<char>>(entries.remove(k)),
    ensures
        archive_result_matches(bytes, r) == archive_result_matches(fewer, r),
{
    let entries = zip_listing(bytes)->Ok_0;
    lemma_archive_ignores_other_entries(entries, k);
}


/// What reading the entries gives once one more front or back image is added after them.
pub open spec fn with_image(
    r: Result<(Seq<(Seq<char>, Seq<u8>)>, Seq<(Seq<char>, Seq<u8>)>), Seq<char>>,
    folder: ArchiveFolder,
    image: (Seq<char>, Seq<u8>),
) -> Result<(Seq<(Seq<char>, Seq<u8>)>, Seq<(Seq<char>, Seq<u8>)>), Seq<char>> {
    match r {
        Ok((front, back)) => if folder == ArchiveFolder::Front {
            Ok((front.push(image), back))
        } else {
            Ok((front, back.push(image)))
        },
        Err(e) => Err(e),
    }
}

proof fn lemma_collect_push(
    entries: Seq<ArchiveEntry>,
    e: ArchiveEntry,
    folder: ArchiveFolder,
    image: (Seq<char>, Seq<u8>),
    i: int,
    front: Seq<(Seq<char>, Seq<u8>)>,
    back: Seq<(Seq<char>, Seq<u8>)>,
)
    requires
        0 <= i <= entries.len(),
        folder != ArchiveFolder::Other,
        e.header matches Ok((Ok(name), is_dir)) && entry_target(name, is_dir) == Some((folder, image.0)),
        e.contents == Ok::<Seq<u8>, EntryReadFailure>(image.1),
    ensures
        collect_entries(entries.push(e), i, front, back) == with_image(
            collect_entries(entries, i, front, back),
            folder,
            image,
        ),
    decreases entries.len() - i,
{
    let all = entries.push(e);
    if i == entries.len() {
        assert(all[i] == e);
        if folder == ArchiveFolder::Front {
            assert(collect_entries(all, i + 1, front.push(image), back) == Ok::<
                (Seq<(Seq<char>, Seq<u8>)>, Seq<(Seq<char>, Seq<u8>)>),
                Seq<char>,
            >((front.push(image), back)));
        } else {
            assert(collect_entries(all, i + 1, front, back.push(image)) == Ok::<
                (Seq<(Seq<char>, Seq<u8>)>, Seq<(Seq<char>, Seq<u8>)>),
                Seq<char>,
            >((front, back.push(image))));
        }
    } else {
        assert(all[i] == entries[i]);
        match entries[i].header {
            Ok((Ok(name), is_dir)) => match entry_target(name, is_dir) {
                None => lemma_collect_push(entries, e, folder, image, i + 1, front, back),
                Some((f, file)) => match entries[i].contents {
                    Ok(data) => match f {
                        ArchiveFolder::Front => lemma_collect_push(entries, e, folder, image, i + 1, front.push((file, data)), back),
                        ArchiveFolder::Back => lemma_collect_push(entries, e, folder, image, i + 1, front, back.push((file, data))),
                        ArchiveFolder::Other => lemma_collect_push(entries, e, folder, image, i + 1, front, back),
                    },
                    _ => {},
                },
            },
            _ => {},
        }
    }
}

/// An image in a `front/` (or `back/`) folder is read into the front (or back) images: an
/// archive with one more such entry at its end gives the same images plus that one (its file
/// name and bytes) at the end of its side, or the same error.
pub proof fn lemma_archive_reads_card_image(
    entries: Seq<ArchiveEntry>,
    e: ArchiveEntry,
    folder: ArchiveFolder,
    image: (Seq<char>, Seq<u8>),
)
    requires
        folder != ArchiveFolder::Other,
        e.header matches Ok((Ok(name), is_dir)) && entry_target(name, is_dir) == Some((folder, image.0)),
        e.contents == Ok::<Seq<u8>, EntryReadFailure>(image.1),
    ensures
        collect_entries(entries.push(e), 0, seq![], seq![]) == with_image(
            collect_entries(entries, 0, seq![], seq![]),
            folder,
            image,
        ),
{
    lemma_collect_push(entries, e, folder, image, 0, seq![], seq![]);
}


/// Where an image file in a folder goes: for a path `parent` + `folder` + "/" + `file`, with
/// `parent` empty or ending in '/', and neither `folder` nor `file` holding a '/', an image
/// file goes to the front images when its own folder is `front`, to the back images when it
/// is `back`, and nowhere otherwise; the card keeps the file's own name.
pub proof fn lemma_entry_target_of_path(parent: Seq<char>, folder: Seq<char>, file: Seq<char>)
    requires
        parent.len() == 0 || parent.last() == '/',
        !folder.contains('/'),
        !file.contains('/'),
        is_archive_image_name(file),
    ensures
        entry_target(parent + folder + "/"@ + file, false) == Some((
            if folder == "front"@ {
                ArchiveFolder::Front
            } else if folder == "back"@ {
                ArchiveFolder::Back
            } else {
                ArchiveFolder::Other
            },
            file,
        )),
{
    reveal_strlit("/");
    let dir = parent + folder;
    let name = dir + "/"@ + file;
    let k = dir.len() as int;
    assert(name[k] == '/');
    assert forall|j: int| k < j < name.len() implies name[j] != '/' by {
        assert(name[j] == file[j - k - 1]);
    }
    lemma_last_index(name, '/', k);
    assert(name.subrange(k + 1, name.len() as int) =~= file);
    assert(name.subrange(0, k) =~= dir);
    let pk = parent.len() as int - 1;
    if parent.len() > 0 {
        assert(dir[pk] == '/');
    }
    assert forall|j: int| pk < j < dir.len() implies dir[j] != '/' by {
        assert(dir[j] == folder[j - parent.len()]);
    }
    lemma_last_index(dir, '/', pk);
    assert(dir.subrange(pk + 1, k) =~= folder);
}

} // verus!
