//! What is stored of photos and galleries, and what is answered about them.
use vstd::prelude::*;

verus! {

/// The columns of the table `photos` that make a [`PhotoRow`], in order.
pub const PHOTO_COLUMNS: &'static str =
    "id, hash, original_filename, mime_type, media_type, file_size, width, height, duration_seconds, taken_at, created_at";

/// A row of the table `photos`. The duration is held by its bits.
#[derive(Debug)]
pub struct PhotoRow {
    pub id: String,
    pub hash: String,
    pub original_filename: String,
    pub mime_type: String,
    pub media_type: String,
    pub file_size: i64,
    pub width: Option<i64>,
    pub height: Option<i64>,
    pub duration_bits: Option<u64>,
    pub taken_at: Option<String>,
    pub created_at: String,
}

/// A photo or video with the full paths of its tags.
#[derive(Debug)]
pub struct Photo {
    pub id: String,
    pub hash: String,
    pub original_filename: String,
    pub mime_type: String,
    pub media_type: String,
    pub file_size: i64,
    pub width: Option<i64>,
    pub height: Option<i64>,
    pub duration_bits: Option<u64>,
    pub taken_at: Option<String>,
    pub created_at: String,
    pub tags: Vec<String>,
}

impl Photo {
    /// The row that a photo comes from.
    pub open spec fn row(&self) -> PhotoRow {
        PhotoRow {
            id: self.id,
            hash: self.hash,
            original_filename: self.original_filename,
            mime_type: self.mime_type,
            media_type: self.media_type,
            file_size: self.file_size,
            width: self.width,
            height: self.height,
            duration_bits: self.duration_bits,
            taken_at: self.taken_at,
            created_at: self.created_at,
        }
    }

    /// The photo of a row, with its tags.
    pub fn from_row(row: PhotoRow, tags: Vec<String>) -> (r: Self)
        ensures
            r.row() == row,
            r.tags == tags,
    {
        Photo {
            id: row.id,
            hash: row.hash,
            original_filename: row.original_filename,
            mime_type: row.mime_type,
            media_type: row.media_type,
            file_size: row.file_size,
            width: row.width,
            height: row.height,
            duration_bits: row.duration_bits,
            taken_at: row.taken_at,
            created_at: row.created_at,
            tags,
        }
    }
}

/// A tag in the tree of tags.
#[derive(Debug)]
pub struct TagNode {
    pub id: i64,
    pub name: String,
    pub path: String,
    /// Number of distinct items (photos or galleries, depending on which
    /// tag tree this node came from) tagged with this tag or any of its
    /// descendants.
    pub count: i64,
    pub children: Vec<TagNode>,
}

/// A gallery as shown in list views: metadata plus derived fields (page
/// count, cover) computed from its member photos rather than stored.
#[derive(Debug)]
pub struct Gallery {
    pub id: String,
    pub title: String,
    pub description: Option<String>,
    pub cover_photo_id: Option<String>,
    pub photo_count: i64,
    pub tags: Vec<String>,
    pub created_at: String,
}

/// A single gallery with its full, ordered page list — what the gallery
/// viewer/reader fetches.
#[derive(Debug)]
pub struct GalleryDetail {
    pub id: String,
    pub title: String,
    pub description: Option<String>,
    pub tags: Vec<String>,
    pub created_at: String,
    pub photos: Vec<Photo>,
}

/// The row of a photo has each of its fields under the same name.
pub proof fn law_photo_keeps_its_fields(photo: Photo)
    ensures
        photo.row().id == photo.id,
        photo.row().hash == photo.hash,
        photo.row().original_filename == photo.original_filename,
        photo.row().mime_type == photo.mime_type,
        photo.row().media_type == photo.media_type,
        photo.row().file_size == photo.file_size,
        photo.row().width == photo.width,
        photo.row().height == photo.height,
        photo.row().duration_bits == photo.duration_bits,
        photo.row().taken_at == photo.taken_at,
        photo.row().created_at == photo.created_at,
{
}

/// The columns of a photo are asked for in the order of its fields.
pub proof fn law_photo_columns()
    ensures
        PHOTO_COLUMNS@
            == "id, hash, original_filename, mime_type, media_type, file_size, width, height, duration_seconds, taken_at, created_at"@,
{
}

} // verus!
