//! Taking in files: what a file is, under which hash it is kept, and what is
//! reported of it.
use vstd::prelude::*;

use crate::error::AppError;
use crate::ids;
use crate::media;
use crate::media::{MediaType, ProbeResult};
use crate::models::{Photo, PhotoRow};
use crate::paths;
use crate::storage;
use crate::tags;
use crate::tagtree;
use crate::tagtree::TagRow;
use crate::tagwalk;
use crate::text;
use sha2::Digest;

verus! {

/// The extension under which a file is stored: its own in lowercase, else the
/// one that is known for its MIME type, else `bin`.
pub open spec fn stored_extension(filename: Seq<char>, known: Option<Seq<char>>) -> Seq<char> {
    match paths::path_extension(filename) {
        Some(ext) => if ext.len() > 0 {
            text::lowercase_of(ext)
        } else {
            known_or_bin(known)
        },
        None => known_or_bin(known),
    }
}

/// An extension, or `bin` where there is none.
pub open spec fn known_or_bin(known: Option<Seq<char>>) -> Seq<char> {
    match known {
        Some(ext) => ext,
        None => "bin"@,
    }
}

/// The extension under which a file is stored, given the one that is known for
/// its MIME type.
pub fn choose_extension(filename: &str, known: Option<String>) -> (r: String)
    ensures
        r@ == stored_extension(filename@, text::opt_string(known)),
{
    if let Some(ext) = paths::extension(filename) {
        if !ext.is_empty() {
            return text::lowercase(ext);
        }
    }
    match known {
        Some(ext) => ext,
        None => "bin".to_owned(),
    }
}

/// The extension under which a file with this name and MIME type is stored.
pub fn extension_for(filename: &str, mime_type: &str) -> (r: String)
    ensures
        r@ == stored_extension(filename@, media::extension_of_mime(mime_type@)),
{
    choose_extension(filename, media::known_extension(mime_type))
}

/// The SHA-256 digest of some bytes.
pub uninterp spec fn digest_of(bytes: Seq<u8>) -> Seq<u8>;

/// `sha2::Sha256::digest`. The digest is a function of the bytes, named
/// [`digest_of`]; it has 32 bytes.
#[verifier::external_body]
pub(crate) fn sha256(bytes: &Vec<u8>) -> (r: Vec<u8>)
    ensures
        r@ == digest_of(bytes@),
        r.len() == 32,
{
    sha2::Sha256::digest(bytes).to_vec()
}

/// The hash under which content is kept: its digest in lowercase hexadecimal.
pub open spec fn content_key(bytes: Seq<u8>) -> Seq<char> {
    text::hex(digest_of(bytes))
}

/// The hash under which content is kept. Directories can be named after it.
pub fn content_hash(bytes: &Vec<u8>) -> (r: String)
    ensures
        r@ == content_key(bytes@),
        r@.len() == 64,
        forall|i: int| 0 <= i < r@.len() ==> text::is_hex(#[trigger] r@[i]),
        storage::shardable(r@),
{
    let digest = sha256(bytes);
    proof {
        text::lemma_hex(digest@);
        storage::law_hex_hash_shards(text::hex(digest@));
    }
    text::hex_of(&digest)
}

/// Content is told apart exactly as its digests are: two contents are kept
/// under one hash if and only if they have one digest.
pub proof fn law_hash_tells_digests_apart(a: Seq<u8>, b: Seq<u8>)
    ensures
        content_key(a) == content_key(b) <==> digest_of(a) == digest_of(b),
{
    if content_key(a) == content_key(b) {
        text::lemma_hex_injective(digest_of(a), digest_of(b));
    }
}

/// Whether a declared content type says anything.
pub open spec fn telling(content_type: Option<Seq<char>>) -> bool {
    content_type is Some && content_type->0.len() > 0 && content_type->0 != "application/octet-stream"@
}

/// The MIME type of a file: the declared content type where it says anything,
/// else the guess.
pub open spec fn chosen_mime(content_type: Option<Seq<char>>, guessed: Option<Seq<char>>) -> Option<Seq<char>> {
    if telling(content_type) {
        content_type
    } else {
        guessed
    }
}

/// What is answered for a file of the MIME type `mime`, or of an unknown one.
pub open spec fn type_error(mime: Option<Seq<char>>) -> Seq<char> {
    match mime {
        None => "could not determine file type"@,
        Some(m) => "unsupported media type: "@ + m,
    }
}

/// Whether `r` is the verdict on a file of the MIME type `mime`: accepted if it
/// is an image or a video, and refused as a bad request otherwise.
pub open spec fn judged(mime: Option<Seq<char>>, r: Result<(String, MediaType), AppError>) -> bool {
    match r {
        Ok(p) => mime == Some(p.0@) && MediaType::of_mime(p.0@) == Some(p.1),
        Err(e) => (mime is None || MediaType::of_mime(mime->0) is None) && e.says(400, type_error(mime)),
    }
}

/// The MIME type and kind of a file, from the content type it was declared with
/// and the guess that its name allows.
pub fn judge(content_type: Option<String>, guessed: Option<String>) -> (r: Result<(String, MediaType), AppError>)
    ensures
        judged(chosen_mime(text::opt_string(content_type), text::opt_string(guessed)), r),
{
    proof {
        reveal_strlit("application/octet-stream");
    }
    let mut mime = guessed;
    if let Some(declared) = content_type {
        if !declared.as_str().is_empty() && !text::same_text(declared.as_str(), "application/octet-stream") {
            mime = Some(declared);
        }
    }
    match mime {
        None => Err(AppError::bad_request("could not determine file type")),
        Some(m) => match MediaType::from_mime(m.as_str()) {
            Some(kind) => Ok((m, kind)),
            None => {
                let mut message = "unsupported media type: ".to_owned();
                message.append(m.as_str());
                Err(AppError::bad_request(message.as_str()))
            },
        },
    }
}

/// A file that is being taken in.
#[derive(Debug)]
pub struct Incoming {
    pub filename: String,
    pub mime_type: String,
    pub media_type: MediaType,
    pub hash: String,
    pub file_size: i64,
}

/// A row for the table `photos`.
#[derive(Debug)]
pub struct NewPhoto {
    pub id: String,
    pub hash: String,
    pub original_filename: String,
    pub mime_type: String,
    pub media_type: &'static str,
    pub ext: String,
    pub file_size: i64,
    pub width: Option<i64>,
    pub height: Option<i64>,
    pub duration_seconds: Option<String>,
    pub taken_at: Option<String>,
}

impl Incoming {
    /// Whether the file can be stored: its hash can name directories.
    pub open spec fn valid(&self) -> bool {
        storage::shardable(self.hash@)
    }

    /// Looks at a file: what it is and under which hash it is kept. The declared
    /// content type goes before the name. A file that is neither an image nor a
    /// video is refused.
    pub fn new(filename: String, content_type: Option<String>, bytes: &Vec<u8>) -> (r: Result<Self, AppError>)
        ensures
            ({
                let mime = chosen_mime(text::opt_string(content_type), media::mime_of_name(filename@));
                match r {
                    Ok(f) => {
                        &&& judged(mime, Ok((f.mime_type, f.media_type)))
                        &&& f.filename == filename
                        &&& f.hash@ == content_key(bytes@)
                        &&& f.file_size == bytes.len() as i64
                        &&& f.valid()
                    },
                    Err(e) => judged(mime, Err(e)),
                }
            }),
    {
        let guessed = media::mime_from_name(filename.as_str());
        match judge(content_type, guessed) {
            Ok((mime_type, media_type)) => {
                let hash = content_hash(bytes);
                let file_size: i64 = bytes.len() as i64;
                Ok(Incoming { filename, mime_type, media_type, hash, file_size })
            },
            Err(e) => Err(e),
        }
    }

    /// The extension under which the file is stored.
    pub fn extension(&self) -> (r: String)
        ensures
            r@ == stored_extension(self.filename@, media::extension_of_mime(self.mime_type@)),
    {
        extension_for(self.filename.as_str(), self.mime_type.as_str())
    }

    /// Where the original is stored in a library.
    pub fn path(&self, library_path: &str, ext: &str) -> (r: String)
        requires
            self.valid(),
        ensures
            r@ == storage::original_at(library_path@, self.hash@, ext@),
    {
        storage::original_path(library_path, self.hash.as_str(), ext)
    }

    /// The row to store for the file under this identifier. Nothing is known of
    /// a file whose probe failed, and an image has no duration, whatever the
    /// probe says.
    pub fn row(self, id: String, ext: String, probe: Option<ProbeResult>) -> (r: NewPhoto)
        ensures
            r.id == id,
            r.hash == self.hash,
            r.original_filename == self.filename,
            r.mime_type == self.mime_type,
            r.media_type@ == self.media_type.name(),
            r.ext == ext,
            r.file_size == self.file_size,
            match probe {
                Some(p) => {
                    &&& r.width == p.width
                    &&& r.height == p.height
                    &&& r.taken_at == p.taken_at
                    &&& r.duration_seconds == (match self.media_type {
                        MediaType::Image => None,
                        MediaType::Video => p.duration_seconds,
                    })
                },
                None => r.width is None && r.height is None && r.taken_at is None && r.duration_seconds is None,
            },
    {
        let mut known = match probe {
            Some(p) => p,
            None => ProbeResult::default(),
        };
        if self.media_type == MediaType::Image {
            // The probe can report a spurious single-frame duration for a JPEG.
            known.duration_seconds = None;
        }
        NewPhoto {
            id,
            hash: self.hash,
            original_filename: self.filename,
            mime_type: self.mime_type,
            media_type: self.media_type.as_str(),
            ext,
            file_size: self.file_size,
            width: known.width,
            height: known.height,
            duration_seconds: known.duration_seconds,
            taken_at: known.taken_at,
        }
    }

    /// The row to store for the file under a fresh identifier.
    pub fn new_row(self, ext: String, probe: Option<ProbeResult>) -> (r: NewPhoto)
        ensures
            ids::is_id(r.id@),
            r.hash == self.hash,
            r.original_filename == self.filename,
            r.mime_type == self.mime_type,
            r.media_type@ == self.media_type.name(),
            r.ext == ext,
            r.file_size == self.file_size,
            match probe {
                Some(p) => {
                    &&& r.width == p.width
                    &&& r.height == p.height
                    &&& r.taken_at == p.taken_at
                    &&& r.duration_seconds == (match self.media_type {
                        MediaType::Image => None,
                        MediaType::Video => p.duration_seconds,
                    })
                },
                None => r.width is None && r.height is None && r.taken_at is None && r.duration_seconds is None,
            },
    {
        let id = ids::new_id();
        self.row(id, ext, probe)
    }
}

/// What is done with a file once it is known whether its content is there.
#[derive(Debug)]
pub enum Lookup {
    /// The content is there, as the photo of this row. Nothing is stored.
    Known(PhotoRow),
    /// The content is new. The file is stored.
    New(Incoming),
}

impl Incoming {
    /// Goes on when the photos have been searched for the hash of the file.
    pub fn looked_up(self, existing: Option<PhotoRow>) -> (r: Lookup)
        ensures
            r == (match existing {
                Some(row) => Lookup::Known(row),
                None => Lookup::New(self),
            }),
    {
        match existing {
            Some(row) => Lookup::Known(row),
            None => Lookup::New(self),
        }
    }
}

/// A photo that is given its tags, one after the other.
#[derive(Debug)]
pub struct Tagging {
    pub row: PhotoRow,
    /// The tags that the photo had, if it was there already.
    pub before: Option<Vec<String>>,
    pub tag_paths: Vec<String>,
    pub next: usize,
}

impl Tagging {
    /// Starts with the first of `tag_paths`.
    pub fn new(row: PhotoRow, before: Option<Vec<String>>, tag_paths: Vec<String>) -> (r: Self)
        ensures
            r == (Tagging { row, before, tag_paths, next: 0 }),
    {
        Tagging { row, before, tag_paths, next: 0 }
    }

    /// The tag to give to the photo next, if any is left, created where it is
    /// missing.
    pub fn ask(&self) -> (r: Option<&String>)
        ensures
            r == (if self.next < self.tag_paths.len() {
                Some(&self.tag_paths@[self.next as int])
            } else {
                None
            }),
    {
        if self.next < self.tag_paths.len() {
            Some(&self.tag_paths[self.next])
        } else {
            None
        }
    }

    /// Goes on when the photo has the tag that was asked for.
    pub fn given(&mut self)
        ensures
            *final(self) == (Tagging {
                next: if old(self).next < old(self).tag_paths.len() {
                    (old(self).next + 1) as usize
                } else {
                    old(self).next
                },
                ..*old(self)
            }),
    {
        if self.next < self.tag_paths.len() {
            self.next = self.next + 1;
        }
    }

    /// The outcome, with the tags that the photo has now.
    pub fn finish(self, tags: Vec<String>) -> (r: IngestOutcome)
        ensures
            r.photo.row() == self.row,
            r.photo.tags == tags,
            r.created == (self.before is None),
            text::texts(r.tags_added@) == (match self.before {
                Some(had) => not_among(text::texts(self.tag_paths@), text::texts(had@)),
                None => text::texts(self.tag_paths@),
            }),
    {
        outcome(self.row, self.before, &self.tag_paths, tags)
    }
}

/// The thumbnails to make for an original in a library: where each goes, and
/// how long its longest side may be.
pub fn thumbnail_jobs(library_path: &str, hash: &str) -> (r: Vec<(String, u32)>)
    requires
        storage::shardable(hash@),
    ensures
        r.len() == 2,
        r@[0].0@ == storage::thumbnail_at(library_path@, hash@, "sm"@) && r@[0].1 == 320,
        r@[1].0@ == storage::thumbnail_at(library_path@, hash@, "md"@) && r@[1].1 == 1280,
{
    let mut out: Vec<(String, u32)> = Vec::new();
    out.push((storage::thumbnail_path(library_path, hash, "sm"), 320));
    out.push((storage::thumbnail_path(library_path, hash, "md"), 1280));
    out
}

/// The result of taking in a file.
#[derive(Debug)]
pub struct IngestOutcome {
    pub photo: Photo,
    pub created: bool,
    pub tags_added: Vec<String>,
}

/// The texts of `paths` that are not in `before`, in their order.
pub open spec fn not_among(paths: Seq<Seq<char>>, before: Seq<Seq<char>>) -> Seq<Seq<char>>
    decreases paths.len(),
{
    if paths.len() == 0 {
        Seq::empty()
    } else if before.contains(paths.last()) {
        not_among(paths.drop_last(), before)
    } else {
        not_among(paths.drop_last(), before).push(paths.last())
    }
}

/// The tags that a file was asked to have and did not have before.
pub fn tags_added(tag_paths: &Vec<String>, before: &Vec<String>) -> (r: Vec<String>)
    ensures
        text::texts(r@) == not_among(text::texts(tag_paths@), text::texts(before@)),
{
    let mut out: Vec<String> = Vec::new();
    let ghost all = text::texts(tag_paths@);
    let ghost had = text::texts(before@);
    let mut i: usize = 0;
    assert(text::texts(out@) =~= not_among(all.take(0), had));
    while i < tag_paths.len()
        invariant
            i <= tag_paths.len(),
            all == text::texts(tag_paths@),
            had == text::texts(before@),
            text::texts(out@) == not_among(all.take(i as int), had),
        decreases tag_paths.len() - i,
    {
        let ghost was = out@;
        assert(all.take(i + 1).drop_last() =~= all.take(i as int));
        assert(all.take(i + 1).last() == tag_paths@[i as int]@);
        if !text::holds(before, tag_paths[i].as_str()) {
            out.push(tag_paths[i].clone());
            assert(text::texts(out@) =~= text::texts(was).push(tag_paths@[i as int]@));
        }
        i = i + 1;
    }
    assert(all.take(i as int) =~= all);
    out
}

/// The outcome for a file: `row` is its row, `before` the tags of the row that
/// was there already, if there was one, and `tags` its tags now.
pub fn outcome(
    row: PhotoRow,
    before: Option<Vec<String>>,
    tag_paths: &Vec<String>,
    tags: Vec<String>,
) -> (r: IngestOutcome)
    ensures
        r.photo.row() == row,
        r.photo.tags == tags,
        r.created == (before is None),
        text::texts(r.tags_added@) == (match before {
            Some(had) => not_among(text::texts(tag_paths@), text::texts(had@)),
            None => text::texts(tag_paths@),
        }),
{
    let created = before.is_none();
    let had = match before {
        Some(had) => had,
        None => Vec::new(),
    };
    proof {
        if created {
            assert(text::texts(had@) =~= Seq::<Seq<char>>::empty());
            lemma_not_among_none(text::texts(tag_paths@));
        }
    }
    let added = tags_added(tag_paths, &had);
    IngestOutcome { photo: Photo::from_row(row, tags), created, tags_added: added }
}

proof fn lemma_not_among_none(paths: Seq<Seq<char>>)
    ensures
        not_among(paths, Seq::empty()) == paths,
    decreases paths.len(),
{
    if paths.len() > 0 {
        lemma_not_among_none(paths.drop_last());
        assert(paths.drop_last().push(paths.last()) =~= paths);
    }
}

/// The outcome of ingesting a single file, used to report per-file progress in
/// the same shape whether the files come from a directory or a downloader.
#[derive(Debug)]
pub struct FileResult {
    pub path: String,
    pub status: &'static str,
    pub tags: Vec<String>,
    pub photo_id: Option<String>,
    pub error: Option<String>,
}

impl Clone for FileResult {
    fn clone(&self) -> (r: Self)
        ensures
            r.path == self.path,
            r.status == self.status,
            r.tags@ == self.tags@,
            r.photo_id == self.photo_id,
            r.error == self.error,
    {
        FileResult {
            path: self.path.clone(),
            status: self.status,
            tags: self.tags.clone(),
            photo_id: self.photo_id.clone(),
            error: self.error.clone(),
        }
    }
}

/// How many files were seen, and what became of them.
#[derive(Debug, Clone, Copy)]
pub struct ImportSummary {
    pub scanned: usize,
    pub uploaded: usize,
    pub tagged: usize,
    pub skipped: usize,
    pub errors: usize,
}

impl Default for ImportSummary {
    fn default() -> (r: Self)
        ensures
            r.scanned == 0 && r.uploaded == 0 && r.tagged == 0 && r.skipped == 0 && r.errors == 0,
    {
        ImportSummary { scanned: 0, uploaded: 0, tagged: 0, skipped: 0, errors: 0 }
    }
}

/// One if `b` holds, else zero.
pub open spec fn one_if(b: bool) -> int {
    if b {
        1
    } else {
        0
    }
}

impl ImportSummary {
    /// Whether one more file of this status can be counted.
    pub open spec fn can_record(&self, status: Seq<char>) -> bool {
        &&& self.scanned < usize::MAX
        &&& status == "uploaded"@ ==> self.uploaded < usize::MAX
        &&& status == "tagged"@ ==> self.tagged < usize::MAX
        &&& status == "skipped"@ ==> self.skipped < usize::MAX
        &&& status == "error"@ ==> self.errors < usize::MAX
    }

    /// Whether `after` counts one more file of this status.
    pub open spec fn counts_one_more(&self, status: Seq<char>, after: ImportSummary) -> bool {
        &&& after.scanned == self.scanned + 1
        &&& after.uploaded == self.uploaded + one_if(status == "uploaded"@)
        &&& after.tagged == self.tagged + one_if(status == "tagged"@)
        &&& after.skipped == self.skipped + one_if(status == "skipped"@)
        &&& after.errors == self.errors + one_if(status == "error"@)
    }

    /// Counts one more file. A status that is none of the four counts as seen
    /// only.
    pub fn record(&mut self, status: &str)
        requires
            old(self).can_record(status@),
        ensures
            old(self).counts_one_more(status@, *final(self)),
    {
        proof {
            lemma_statuses_differ();
        }
        self.scanned = self.scanned + 1;
        if text::same_text(status, "uploaded") {
            self.uploaded = self.uploaded + 1;
        } else if text::same_text(status, "tagged") {
            self.tagged = self.tagged + 1;
        } else if text::same_text(status, "skipped") {
            self.skipped = self.skipped + 1;
        } else if text::same_text(status, "error") {
            self.errors = self.errors + 1;
        }
    }

    /// Whether every file seen is counted under exactly one outcome.
    pub open spec fn balanced(&self) -> bool {
        self.scanned == self.uploaded + self.tagged + self.skipped + self.errors
    }
}

/// Whether a status is one of the four that files end with.
pub open spec fn is_status(status: Seq<char>) -> bool {
    status == "uploaded"@ || status == "tagged"@ || status == "skipped"@ || status == "error"@
}

proof fn lemma_statuses_differ()
    ensures
        "uploaded"@ != "tagged"@,
        "uploaded"@ != "skipped"@,
        "uploaded"@ != "error"@,
        "tagged"@ != "skipped"@,
        "tagged"@ != "error"@,
        "skipped"@ != "error"@,
{
    reveal_strlit("uploaded");
    reveal_strlit("tagged");
    reveal_strlit("skipped");
    reveal_strlit("error");
    assert("uploaded"@[0] != "tagged"@[0]);
    assert("uploaded"@[0] != "skipped"@[0]);
    assert("uploaded"@[0] != "error"@[0]);
    assert("tagged"@[0] != "skipped"@[0]);
    assert("tagged"@[0] != "error"@[0]);
    assert("skipped"@[0] != "error"@[0]);
}

/// Counting files of the four statuses keeps every file under exactly one
/// outcome, so that the counts of the outcomes add up to the files seen.
pub proof fn law_summary_balances(before: ImportSummary, status: Seq<char>, after: ImportSummary)
    requires
        before.balanced(),
        is_status(status),
        before.counts_one_more(status, after),
    ensures
        after.balanced(),
{
    lemma_statuses_differ();
}

/// The status of a file that was taken in.
pub open spec fn status_text(created: bool, added: bool) -> Seq<char> {
    if created {
        "uploaded"@
    } else if added {
        "tagged"@
    } else {
        "skipped"@
    }
}

/// Classifies an outcome as "uploaded", "tagged" or "skipped".
pub fn status_for(created: bool, tags_added: &Vec<String>) -> (r: &'static str)
    ensures
        r@ == status_text(created, tags_added.len() > 0),
{
    if created {
        "uploaded"
    } else if !tags_added.is_empty() {
        "tagged"
    } else {
        "skipped"
    }
}

/// What the database holds of photos and their tags.
#[verifier::ext_equal]
pub struct Library {
    /// The photos by the hashes of their contents.
    pub photos: Map<Seq<char>, PhotoRow>,
    pub tags: Seq<TagRow>,
    /// The tags of each photo, by the identifier of the photo.
    pub links: Map<Seq<char>, Set<i64>>,
}

impl Library {
    /// The tags of a photo.
    pub open spec fn tags_of(self, photo: PhotoRow) -> Set<i64> {
        if self.links.contains_key(photo.id@) {
            self.links[photo.id@]
        } else {
            Set::empty()
        }
    }
}

/// Whether giving the tags that `paths` name to a photo, one after the other,
/// turns the table of tags into `tags_after` and the tags of the photo from
/// `had` into `has`. Tags that are missing are created, and a tag that the photo
/// has is not given again.
pub open spec fn attaches(
    tags: Seq<TagRow>,
    had: Set<i64>,
    paths: Seq<Seq<char>>,
    tags_after: Seq<TagRow>,
    has: Set<i64>,
) -> bool
    decreases paths.len(),
{
    if paths.len() == 0 {
        tags_after == tags && has == had
    } else {
        exists|middle: Seq<TagRow>, id: i64| #[trigger]
            tagwalk::creates(tags, 0, tags::segments(paths[0]), middle, id) && attaches(
                middle,
                had.insert(id),
                paths.skip(1),
                tags_after,
                has,
            )
    }
}

/// Whether taking in a content with these tags turns `before` into `after`.
/// `photo` is the photo of the content: the one that was there, or `row` if
/// there was none, and then it was `created`.
pub open spec fn ingests(
    before: Library,
    bytes: Seq<u8>,
    row: PhotoRow,
    paths: Seq<Seq<char>>,
    after: Library,
    photo: PhotoRow,
    created: bool,
) -> bool {
    let hash = content_key(bytes);
    &&& created == !before.photos.contains_key(hash)
    &&& photo == (if created {
        row
    } else {
        before.photos[hash]
    })
    &&& after.photos == (if created {
        before.photos.insert(hash, row)
    } else {
        before.photos
    })
    &&& after.links == before.links.insert(photo.id@, after.tags_of(photo))
    &&& attaches(before.tags, before.tags_of(photo), paths, after.tags, after.tags_of(photo))
}

/// Whether a text is a tag path as it is reported: its segments with slashes
/// between them.
pub open spec fn is_plain(path: Seq<char>) -> bool {
    path == text::join_texts(tags::segments(path), "/"@)
}

/// Whether the photo that has these tags has the tag that a path names.
pub open spec fn has_tag(tags: Seq<TagRow>, has: Set<i64>, path: Seq<char>) -> bool {
    tagwalk::find_path(tags, path) is Some && has.contains(tagwalk::find_path(tags, path)->0)
}

proof fn lemma_attaches(
    tags: Seq<TagRow>,
    had: Set<i64>,
    paths: Seq<Seq<char>>,
    tags_after: Seq<TagRow>,
    has: Set<i64>,
)
    requires
        tagwalk::sound(tags),
        forall|i: int| 0 <= i < paths.len() ==> tags::segments(#[trigger] paths[i]).len() > 0,
        attaches(tags, had, paths, tags_after, has),
    ensures
        tagwalk::sound(tags_after),
        forall|path: Seq<char>| #[trigger] has_tag(tags, had, path) ==> has_tag(tags_after, has, path),
        forall|i: int| 0 <= i < paths.len() ==> has_tag(tags_after, has, #[trigger] paths[i]),
    decreases paths.len(),
{
    if paths.len() > 0 {
        let first = paths[0];
        let rest = paths.skip(1);
        let (middle, id) = choose|middle: Seq<TagRow>, id: i64| #[trigger]
            tagwalk::creates(tags, 0, tags::segments(first), middle, id) && attaches(
                middle,
                had.insert(id),
                rest,
                tags_after,
                has,
            );
        tagwalk::law_created_tag_is_found(tags, first, middle, id);
        assert forall|i: int| 0 <= i < rest.len() implies tags::segments(#[trigger] rest[i]).len() > 0 by {
            assert(rest[i] == paths[i + 1]);
        }
        lemma_attaches(middle, had.insert(id), rest, tags_after, has);
        assert(has_tag(middle, had.insert(id), first));
        assert forall|path: Seq<char>| #[trigger] has_tag(tags, had, path) implies has_tag(tags_after, has, path) by {
            assert(has_tag(middle, had.insert(id), path));
        }
        assert forall|i: int| 0 <= i < paths.len() implies has_tag(tags_after, has, #[trigger] paths[i]) by {
            if i > 0 {
                assert(rest[i - 1] == paths[i]);
            }
        }
    }
}

proof fn lemma_attaches_nothing(
    tags: Seq<TagRow>,
    had: Set<i64>,
    paths: Seq<Seq<char>>,
    tags_after: Seq<TagRow>,
    has: Set<i64>,
)
    requires
        forall|i: int| 0 <= i < paths.len() ==> has_tag(tags, had, #[trigger] paths[i]),
        attaches(tags, had, paths, tags_after, has),
    ensures
        tags_after == tags,
        has == had,
    decreases paths.len(),
{
    if paths.len() > 0 {
        let first = paths[0];
        let rest = paths.skip(1);
        let (middle, id) = choose|middle: Seq<TagRow>, id: i64| #[trigger]
            tagwalk::creates(tags, 0, tags::segments(first), middle, id) && attaches(
                middle,
                had.insert(id),
                rest,
                tags_after,
                has,
            );
        assert(has_tag(tags, had, first));
        tagwalk::law_existing_tag_is_kept(tags, 0, tags::segments(first), middle, id);
        assert(had.insert(id) =~= had);
        assert forall|i: int| 0 <= i < rest.len() implies has_tag(tags, had, #[trigger] rest[i]) by {
            assert(rest[i] == paths[i + 1]);
        }
        lemma_attaches_nothing(tags, had, rest, tags_after, has);
    }
}

proof fn lemma_not_among_all(paths: Seq<Seq<char>>, before: Seq<Seq<char>>)
    requires
        forall|i: int| 0 <= i < paths.len() ==> before.contains(#[trigger] paths[i]),
    ensures
        not_among(paths, before).len() == 0,
    decreases paths.len(),
{
    if paths.len() > 0 {
        let front = paths.drop_last();
        assert(before.contains(paths[paths.len() - 1]));
        assert forall|i: int| 0 <= i < front.len() implies before.contains(#[trigger] front[i]) by {
            assert(front[i] == paths[i]);
        }
        lemma_not_among_all(front, before);
    }
}

/// Taking in the same content with the same tags a second time creates no photo
/// and changes nothing. Where the tags are written as they are reported, no tag
/// counts as added and the file as skipped; `ids` are the tags of the photo as
/// they are read before, in whatever order.
pub proof fn law_ingesting_twice_changes_nothing(
    before: Library,
    bytes: Seq<u8>,
    row: PhotoRow,
    paths: Seq<Seq<char>>,
    after: Library,
    photo: PhotoRow,
    created: bool,
    other_row: PhotoRow,
    later: Library,
    photo_again: PhotoRow,
    created_again: bool,
    ids: Seq<i64>,
)
    requires
        tagwalk::sound(before.tags),
        forall|i: int| 0 <= i < paths.len() ==> tags::segments(#[trigger] paths[i]).len() > 0,
        ingests(before, bytes, row, paths, after, photo, created),
        ingests(after, bytes, other_row, paths, later, photo_again, created_again),
        forall|id: i64| #[trigger] ids.contains(id) <==> after.tags_of(photo).contains(id),
    ensures
        !created_again,
        photo_again == photo,
        later == after,
        (forall|i: int| 0 <= i < paths.len() ==> is_plain(#[trigger] paths[i])) ==> ({
            let added = not_among(paths, tagtree::paths_of(after.tags, ids));
            added.len() == 0 && status_text(created_again, added.len() > 0) == "skipped"@
        }),
{
    let has = after.tags_of(photo);
    lemma_attaches(before.tags, before.tags_of(photo), paths, after.tags, has);
    assert(after.photos.contains_key(content_key(bytes)));
    lemma_attaches_nothing(after.tags, has, paths, later.tags, later.tags_of(photo));
    assert(later.links =~= after.links);
    assert(later =~= after);
    if forall|i: int| 0 <= i < paths.len() ==> is_plain(#[trigger] paths[i]) {
        let had = tagtree::paths_of(after.tags, ids);
        assert forall|i: int| 0 <= i < paths.len() implies had.contains(#[trigger] paths[i]) by {
            assert(has_tag(after.tags, has, paths[i]));
            assert(is_plain(paths[i]));
            let id = tagwalk::find_path(after.tags, paths[i])->0;
            tagwalk::law_path_finds_the_tag_it_names(after.tags, paths[i], id);
            assert(ids.contains(id));
            tagwalk::lemma_paths_hold(after.tags, ids, id);
        }
        lemma_not_among_all(paths, had);
    }
}

/// A file is stored under its own extension with the letters small, be it known
/// or not; without one, under the extension that is known for its type, and
/// under `bin` if none is.
pub proof fn law_stored_extension(stem: Seq<char>, ext: Seq<char>, known: Option<Seq<char>>)
    requires
        stem.len() > 0 && !stem.contains('/') && stem != seq!['.'] && stem != seq!['.', '.'],
        !ext.contains('/') && !ext.contains('.'),
    ensures
        ext.len() > 0 ==> stored_extension(stem.push('.') + ext, known) == text::lowercase_of(ext),
        ext.len() == 0 && known is Some ==> stored_extension(stem.push('.') + ext, known) == known->0,
        ext.len() == 0 && known is None ==> stored_extension(stem.push('.') + ext, known) == "bin"@,
        !stem.skip(1).contains('.') && known is Some ==> stored_extension(stem, known) == known->0,
        !stem.skip(1).contains('.') && known is None ==> stored_extension(stem, known) == "bin"@,
{
    let name = stem.push('.') + ext;
    assert(!name.contains('/')) by {
        if name.contains('/') {
            let k = name.index_of('/');
            if k < stem.len() {
                assert(stem.contains(stem[k]));
            } else if k > stem.len() {
                assert(ext.contains(ext[k - stem.len() - 1]));
            }
        }
    }
    assert(name != seq!['.', '.']) by {
        if name == seq!['.', '.'] {
            assert(name.len() == stem.len() + 1 + ext.len());
            assert(seq!['.', '.'].len() == 2);
            assert(stem[0] == name[0]);
            assert(stem =~= seq!['.']);
        }
    }
    paths::law_extension_stands_behind_the_last_dot(stem, ext);
    paths::law_path_has_the_extension_of_its_file(Seq::empty(), name);
    paths::law_path_has_the_extension_of_its_file(Seq::empty(), stem);
}

/// Content is kept under its digest, of which every byte becomes two hexadecimal
/// digits.
pub proof fn law_hash_is_the_digest_in_hexadecimal(bytes: Seq<u8>, i: int)
    requires
        0 <= i < digest_of(bytes).len(),
    ensures
        content_key(bytes).len() == 2 * digest_of(bytes).len(),
        digest_of(bytes)[i] == 16 * text::hex_value(content_key(bytes)[2 * i]) + text::hex_value(
            content_key(bytes)[2 * i + 1],
        ),
{
    text::law_hex_digits_stand_for_the_bytes(digest_of(bytes));
}

/// The type that a file was declared with counts, whatever its name suggests,
/// unless it is missing, empty or the type of just any bytes; then what the name
/// suggests does.
pub proof fn law_declared_type_goes_first(declared: Seq<char>, guessed: Option<Seq<char>>)
    ensures
        declared.len() > 0 && declared != "application/octet-stream"@ ==> chosen_mime(Some(declared), guessed) == Some(
            declared,
        ),
        declared.len() == 0 || declared == "application/octet-stream"@ ==> chosen_mime(Some(declared), guessed)
            == guessed,
        chosen_mime(None, guessed) == guessed,
{
}

/// Every image and every video is accepted with its own type, whatever stands
/// behind the slash. A file of another type is refused, and so is one of no known
/// type; the answer tells which.
pub proof fn law_images_and_videos_are_accepted(
    sub: Seq<char>,
    image: Result<(String, MediaType), AppError>,
    video: Result<(String, MediaType), AppError>,
    other: Result<(String, MediaType), AppError>,
    unknown: Result<(String, MediaType), AppError>,
)
    requires
        judged(Some("image/"@ + sub), image),
        judged(Some("video/"@ + sub), video),
        judged(Some(sub), other),
        judged(None, unknown),
    ensures
        image is Ok && (image->Ok_0).0@ == "image/"@ + sub && (image->Ok_0).1 == MediaType::Image,
        video is Ok && (video->Ok_0).0@ == "video/"@ + sub && (video->Ok_0).1 == MediaType::Video,
        (forall|rest: Seq<char>| sub != #[trigger] ("image/"@ + rest)) && (forall|rest: Seq<char>|
            sub != #[trigger] ("video/"@ + rest)) ==> other is Err && other->Err_0.0 == 400 && other->Err_0.1@
            == "unsupported media type: "@ + sub,
        unknown is Err && unknown->Err_0.0 == 400 && unknown->Err_0.1@ == "could not determine file type"@,
{
    media::law_main_type_tells_the_kind(sub, sub);
}

proof fn lemma_not_among_join(a: Seq<Seq<char>>, b: Seq<Seq<char>>, before: Seq<Seq<char>>)
    ensures
        not_among(a + b, before) == not_among(a, before) + not_among(b, before),
    decreases b.len(),
{
    if b.len() == 0 {
        assert(a + b =~= a);
        assert(not_among(a, before) + not_among(b, before) =~= not_among(a, before));
    } else {
        assert((a + b).drop_last() =~= a + b.drop_last());
        lemma_not_among_join(a, b.drop_last(), before);
        assert(not_among(a + b, before) =~= not_among(a, before) + not_among(b, before));
    }
}

/// The tags that count as added are those asked for that were not there before,
/// in the order in which they were asked for.
pub proof fn law_added_tags_are_the_new_ones(a: Seq<Seq<char>>, tag: Seq<char>, b: Seq<Seq<char>>, before: Seq<Seq<char>>)
    ensures
        not_among(a + b, before) == not_among(a, before) + not_among(b, before),
        not_among(seq![tag], before) == (if before.contains(tag) {
            Seq::empty()
        } else {
            seq![tag]
        }),
        not_among(Seq::empty(), before).len() == 0,
{
    lemma_not_among_join(a, b, before);
    assert(seq![tag].drop_last() =~= Seq::<Seq<char>>::empty());
    assert(not_among(seq![tag].drop_last(), before) =~= Seq::<Seq<char>>::empty());
    assert(Seq::<Seq<char>>::empty().push(tag) =~= seq![tag]);
}

/// A file that was not there is uploaded, one that was there is tagged if it got
/// a tag, and else skipped.
pub proof fn law_statuses(added: bool)
    ensures
        status_text(true, added) == "uploaded"@,
        status_text(false, true) == "tagged"@,
        status_text(false, false) == "skipped"@,
{
}

/// Every file counts as seen, and once under the name of its status: no other
/// count changes, and a status without a count changes none.
pub proof fn law_every_status_has_its_count(before: ImportSummary, status: Seq<char>, after: ImportSummary)
    requires
        before.counts_one_more(status, after),
    ensures
        after.scanned == before.scanned + 1,
        status == "uploaded"@ ==> after.uploaded == before.uploaded + 1,
        status != "uploaded"@ ==> after.uploaded == before.uploaded,
        status == "tagged"@ ==> after.tagged == before.tagged + 1,
        status != "tagged"@ ==> after.tagged == before.tagged,
        status == "skipped"@ ==> after.skipped == before.skipped + 1,
        status != "skipped"@ ==> after.skipped == before.skipped,
        status == "error"@ ==> after.errors == before.errors + 1,
        status != "error"@ ==> after.errors == before.errors,
        before.balanced() <==> before.scanned == before.uploaded + before.tagged + before.skipped + before.errors,
{
}

/// The extension of every name counts alike: one that is not empty is put in
/// lowercase, and with none or an empty one the type decides.
pub proof fn law_extension_goes_before_the_type(filename: Seq<char>, known: Option<Seq<char>>)
    ensures
        ({
            let own = paths::path_extension(filename);
            stored_extension(filename, known) == (if own is Some && own->0 != Seq::<char>::empty() {
                text::lowercase_of(own->0)
            } else if known is Some {
                known->0
            } else {
                "bin"@
            })
        }),
{
    let own = paths::path_extension(filename);
    if own is Some && own->0.len() == 0 {
        assert(own->0 =~= Seq::<char>::empty());
    }
}

/// A summary takes every status as long as none of its counts is at the limit.
pub proof fn law_summary_has_room(summary: ImportSummary, status: Seq<char>)
    requires
        summary.scanned < usize::MAX && summary.uploaded < usize::MAX && summary.tagged < usize::MAX,
        summary.skipped < usize::MAX && summary.errors < usize::MAX,
    ensures
        summary.can_record(status),
{
}

} // verus!
