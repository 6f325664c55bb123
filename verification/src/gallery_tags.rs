//! Tags of galleries, which make a tree of their own.
use vstd::prelude::*;

use crate::models::TagNode;
use crate::sql;
use crate::strmap::StrMap;
use crate::tags;
use crate::tags::{DeleteError, RenameError, Update};
use crate::tagtree;
use crate::tagtree::TagRow;
use crate::tagwalk::PathWalk;
use crate::text;

verus! {

/// Starts the walk that resolves a gallery tag path to its leaf tag id,
/// creating any missing segments. A path without segments is refused.
pub fn resolve_or_create<'a>(path: &'a str) -> (r: Result<PathWalk<'a>, String>)
    ensures
        match r {
            Ok(w) => tags::segments(path@).len() > 0 && w.rest() == tags::segments(path@) && w.at() == 0,
            Err(message) => tags::segments(path@).len() == 0 && message@ == "tag path must not be empty"@,
        },
{
    PathWalk::to_create(path)
}

/// Starts the search for a gallery tag by its full path, without creating it.
pub fn find_by_path<'a>(path: &'a str) -> (r: Option<PathWalk<'a>>)
    ensures
        r is Some <==> tags::segments(path@).len() > 0,
        r matches Some(w) ==> w.rest() == tags::segments(path@) && w.at() == 0,
{
    PathWalk::new(path)
}

/// Returns the full "/"-joined paths for a set of gallery tag ids, given all
/// gallery tags.
pub fn full_paths(rows: &Vec<TagRow>, tag_ids: &Vec<i64>) -> (r: Vec<String>)
    requires
        forall|j: int| 0 <= j < tag_ids.len() ==> tagtree::settled(rows@, #[trigger] tag_ids@[j]),
    ensures
        text::texts(r@) == tagtree::paths_of(rows@, tag_ids@),
{
    tagtree::full_paths(rows, tag_ids)
}

/// The query for the tags of `n` galleries.
pub fn gallery_links_query(n: usize) -> (r: String)
    ensures
        r@ == "SELECT gallery_id, tag_id FROM gallery_tag_links WHERE gallery_id IN ("@ + sql::marks(n as nat) + ")"@,
{
    let mut out = "SELECT gallery_id, tag_id FROM gallery_tag_links WHERE gallery_id IN (".to_owned();
    let marks = sql::placeholders(n);
    out.append(marks.as_str());
    out.append(")");
    out
}

/// The tags of many galleries, from all gallery tags and the links of the
/// galleries.
pub fn tags_for_galleries(
    rows: &Vec<TagRow>,
    gallery_ids: &Vec<String>,
    links: &Vec<(String, i64)>,
) -> (r: StrMap<Vec<String>>)
    requires
        forall|j: int| 0 <= j < links.len() ==> tagtree::settled(rows@, (#[trigger] links@[j]).1),
    ensures
        tagtree::lists_tags(rows@, text::texts(gallery_ids@), links@, r@),
{
    tagtree::tags_for_items(rows, gallery_ids, links)
}

/// Checks a request to rename a gallery tag, as [`tags::rename`] does: the
/// error cases (empty/slashed name, missing row, name collision) are identical
/// regardless of which tag tree they came from.
pub fn rename(tag_id: i64, new_name: &str) -> (r: Result<String, RenameError>)
    ensures
        match r {
            Ok(name) => name@ == text::trimmed(new_name@) && tags::valid_name(name@) && tag_id != 0,
            Err(e) => e is InvalidName && (!tags::valid_name(text::trimmed(new_name@)) || tag_id == 0),
        },
{
    tags::rename(tag_id, new_name)
}

/// The result of renaming a gallery tag.
pub fn rename_outcome(update: Update) -> (r: Result<(), RenameError>)
    ensures
        r == (match update {
            Update::Changed(n) => if n == 0 {
                Err::<(), RenameError>(RenameError::NotFound)
            } else {
                Ok(())
            },
            Update::Conflict => Err(RenameError::NameConflict),
            Update::Failed(message) => Err(RenameError::Other(message)),
        }),
{
    tags::rename_outcome(update)
}

/// Checks a request to delete a gallery tag. Only the tag 0 is protected.
pub fn delete(tag_id: i64) -> (r: Result<(), DeleteError>)
    ensures
        r == (if tag_id == 0 {
            Err::<(), DeleteError>(DeleteError::Protected)
        } else {
            Ok(())
        }),
{
    tags::delete(tag_id, None)
}

/// The tree of all gallery tags, with the number of galleries of each.
pub fn build_tree(rows: &Vec<TagRow>, counts: &Vec<(i64, i64)>) -> (r: Vec<TagNode>)
    requires
        tagtree::keyed(rows@),
    ensures
        tagtree::is_level(rows@, counts@, None, 0, ""@, r@),
{
    tagtree::build_tree(rows, counts, None)
}

} // verus!
