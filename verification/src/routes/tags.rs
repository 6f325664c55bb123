//! Routes for tags.
use vstd::prelude::*;

use crate::error::AppError;
use crate::tags::{DeleteError, RenameError};

verus! {

/// A request to rename a tag.
#[derive(Debug)]
pub struct RenameTagRequest {
    pub name: String,
}

/// What is answered when a tag is not renamed.
pub fn rename_error(e: RenameError) -> (r: AppError)
    ensures
        match e {
            RenameError::InvalidName => r.says(400, "tag name must not be empty or contain '/'"@),
            RenameError::NotFound => r.says(404, "tag not found"@),
            RenameError::NameConflict => r.says(
                400,
                "a tag with that name already exists under the same parent"@,
            ),
            RenameError::Other(message) => r.says(500, message@),
        },
{
    match e {
        RenameError::InvalidName => AppError::bad_request("tag name must not be empty or contain '/'"),
        RenameError::NotFound => AppError::not_found("tag not found"),
        RenameError::NameConflict => AppError::bad_request("a tag with that name already exists under the same parent"),
        RenameError::Other(message) => AppError::internal(message.as_str()),
    }
}

/// What is answered when a tag is not deleted.
pub fn delete_error(e: DeleteError) -> (r: AppError)
    ensures
        match e {
            DeleteError::NotFound => r.says(404, "tag not found"@),
            DeleteError::Protected => r.says(400, "this tag cannot be deleted"@),
            DeleteError::Other(message) => r.says(500, message@),
        },
{
    match e {
        DeleteError::NotFound => AppError::not_found("tag not found"),
        DeleteError::Protected => AppError::bad_request("this tag cannot be deleted"),
        DeleteError::Other(message) => AppError::internal(message.as_str()),
    }
}

} // verus!
