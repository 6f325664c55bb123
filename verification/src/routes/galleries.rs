//! Routes for galleries.
use vstd::prelude::*;

use crate::error::AppError;
use crate::gallery::ReorderError;
use crate::text;

verus! {

/// A request for a new gallery.
#[derive(Debug)]
pub struct CreateGalleryBody {
    pub title: String,
    pub description: Option<String>,
}

/// A request for a list of galleries, of all or of those with a tag.
#[derive(Debug)]
pub struct ListQuery {
    pub tag: Option<String>,
}

/// A request to change a gallery. What is not given stays.
#[derive(Debug)]
pub struct UpdateGalleryBody {
    pub title: Option<String>,
    pub description: Option<String>,
}

/// A request to add or remove photos.
#[derive(Debug)]
pub struct PhotoIdsBody {
    pub photo_ids: Vec<String>,
}

/// A request to put the photos of a gallery in order.
#[derive(Debug)]
pub struct ReorderBody {
    pub photo_ids: Vec<String>,
}

/// A request to add or remove tags.
#[derive(Debug)]
pub struct GalleryTagsBody {
    pub tags: Vec<String>,
}

/// A request to rename a gallery tag.
#[derive(Debug)]
pub struct RenameGalleryTagBody {
    pub name: String,
}

/// The title that a gallery gets: without the white space around it. An empty
/// one is refused.
pub fn check_title(title: &str) -> (r: Result<String, AppError>)
    ensures
        match r {
            Ok(t) => t@ == text::trimmed(title@) && t@.len() > 0,
            Err(e) => text::trimmed(title@).len() == 0 && e.says(400, "title must not be empty"@),
        },
{
    let t = text::trim(title);
    if t.unicode_len() == 0 {
        return Err(AppError::bad_request("title must not be empty"));
    }
    Ok(t.to_owned())
}

/// Checks the title that a gallery is to get, if it is to get another. An empty
/// one is refused.
pub fn check_new_title(title: &Option<String>) -> (r: Result<(), AppError>)
    ensures
        r is Ok <==> (title is None || text::trimmed(title->0@).len() > 0),
        r matches Err(e) ==> e.says(400, "title must not be empty"@),
{
    if let Some(t) = title {
        check_title(t.as_str())?;
    }
    Ok(())
}

/// The tags by which the list of galleries is filtered: `descendants` are those
/// of the tag that was asked for, if it exists. A tag that does not exist filters
/// out everything.
pub fn tag_filter(asked: bool, descendants: Option<Vec<i64>>) -> (r: Option<Vec<i64>>)
    ensures
        !asked ==> r is None,
        asked ==> r is Some && r->0@ == (match descendants {
            Some(ids) => ids@,
            None => Seq::empty(),
        }),
{
    if !asked {
        return None;
    }
    match descendants {
        Some(ids) => Some(ids),
        None => Some(Vec::new()),
    }
}

/// What is answered when a gallery is not reordered.
pub fn reorder_error(e: ReorderError) -> (r: AppError)
    ensures
        match e {
            ReorderError::Mismatch => r.says(400, "photo_ids must exactly match the gallery's current photos"@),
            ReorderError::Other(message) => r.says(500, message@),
        },
{
    match e {
        ReorderError::Mismatch => AppError::bad_request("photo_ids must exactly match the gallery's current photos"),
        ReorderError::Other(message) => AppError::internal(message.as_str()),
    }
}

/// What is answered when a gallery was to be deleted: it is an error if there
/// was none.
pub fn check_deleted(deleted: bool) -> (r: Result<(), AppError>)
    ensures
        r is Ok <==> deleted,
        r matches Err(e) ==> e.says(404, "gallery not found"@),
{
    if deleted {
        Ok(())
    } else {
        Err(AppError::not_found("gallery not found"))
    }
}

} // verus!
