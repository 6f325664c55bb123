//! Tags of photos. A tag is named by a path such as `people/alice`.
use vstd::prelude::*;

use crate::models::TagNode;
use crate::sql;
use crate::strmap::StrMap;
use crate::tagtree;
use crate::tagtree::TagRow;
use crate::tagwalk::PathWalk;
use crate::text;

verus! {

/// Reserved top-level tag used to mark photos as soft-deleted ("trash").
/// Excluded from the tag tree and autocomplete suggestions so it doesn't
/// appear alongside user-created tags.
pub const TRASH_TAG: &'static str = "trash";

/// The pieces without white space around them, in their order, except those of
/// which nothing is left.
pub open spec fn kept(pieces: Seq<Seq<char>>) -> Seq<Seq<char>>
    decreases pieces.len(),
{
    if pieces.len() == 0 {
        Seq::empty()
    } else if text::trimmed(pieces.last()).len() > 0 {
        kept(pieces.drop_last()).push(text::trimmed(pieces.last()))
    } else {
        kept(pieces.drop_last())
    }
}

/// The segments of a tag path: its pieces between slashes, trimmed, without the
/// empty ones.
pub open spec fn segments(path: Seq<char>) -> Seq<Seq<char>> {
    kept(text::split_on(path, '/'))
}

/// Splits a tag path like "people/alice" into trimmed, non-empty segments.
pub fn split_path<'a>(path: &'a str) -> (r: Vec<&'a str>)
    ensures
        text::str_texts(r@) == segments(path@),
{
    let pieces = text::split(path, '/');
    let ghost ps = text::str_texts(pieces@);
    let mut out: Vec<&'a str> = Vec::new();
    let mut i: usize = 0;
    assert(text::str_texts(out@) =~= kept(ps.take(0)));
    while i < pieces.len()
        invariant
            i <= pieces.len(),
            ps == text::str_texts(pieces@),
            text::str_texts(out@) == kept(ps.take(i as int)),
        decreases pieces.len() - i,
    {
        let ghost was = out@;
        assert(ps.take(i + 1).drop_last() =~= ps.take(i as int));
        assert(ps.take(i + 1).last() == pieces@[i as int]@);
        let t = text::trim(pieces[i]);
        if t.unicode_len() > 0 {
            out.push(t);
            assert(text::str_texts(out@) =~= text::str_texts(was).push(t@));
        }
        i = i + 1;
    }
    assert(ps.take(i as int) =~= ps);
    out
}

/// Whether a text can be the name of a tag: not empty, no white space around
/// it, no slash in it.
pub open spec fn valid_name(s: Seq<char>) -> bool {
    s.len() > 0 && text::is_trim(s) && !s.contains('/')
}

proof fn lemma_kept_valid(pieces: Seq<Seq<char>>)
    requires
        forall|i: int| 0 <= i < pieces.len() ==> !(#[trigger] pieces[i]).contains('/'),
    ensures
        forall|i: int| 0 <= i < kept(pieces).len() ==> valid_name(#[trigger] kept(pieces)[i]),
    decreases pieces.len(),
{
    if pieces.len() > 0 {
        let front = pieces.drop_last();
        assert forall|i: int| 0 <= i < front.len() implies !(#[trigger] front[i]).contains('/') by {
            assert(front[i] == pieces[i]);
        }
        lemma_kept_valid(front);
        text::lemma_trimmed(pieces.last());
        assert(!pieces.last().contains('/'));
        assert forall|i: int| 0 <= i < kept(pieces).len() implies valid_name(#[trigger] kept(pieces)[i]) by {
            if i < kept(front).len() {
                assert(kept(pieces)[i] == kept(front)[i]);
            }
        }
    }
}

/// Every segment of every path can be the name of a tag.
pub proof fn law_segments_are_names(path: Seq<char>)
    ensures
        forall|i: int| 0 <= i < segments(path).len() ==> valid_name(#[trigger] segments(path)[i]),
{
    text::lemma_split_pieces(path, '/');
    lemma_kept_valid(text::split_on(path, '/'));
}

proof fn lemma_kept_all(pieces: Seq<Seq<char>>)
    requires
        forall|i: int| 0 <= i < pieces.len() ==> valid_name(#[trigger] pieces[i]),
    ensures
        kept(pieces) == pieces,
    decreases pieces.len(),
{
    if pieces.len() > 0 {
        let front = pieces.drop_last();
        assert forall|i: int| 0 <= i < front.len() implies valid_name(#[trigger] front[i]) by {
            assert(front[i] == pieces[i]);
        }
        lemma_kept_all(front);
        assert(valid_name(pieces.last()));
        text::lemma_trimmed(pieces.last());
        assert(front.push(pieces.last()) =~= pieces);
    }
}

/// Splitting the path that names make with slashes between them gives the names
/// back.
pub proof fn law_split_undoes_join(names: Seq<Seq<char>>)
    requires
        names.len() > 0,
        forall|i: int| 0 <= i < names.len() ==> valid_name(#[trigger] names[i]),
    ensures
        segments(text::join_texts(names, seq!['/'])) == names,
{
    assert forall|i: int| 0 <= i < names.len() implies !(#[trigger] names[i]).contains('/') by {
        assert(valid_name(names[i]));
    }
    text::lemma_split_join(names, '/');
    lemma_kept_all(names);
}

/// Spacing does not count: splitting the segments of a path, joined with
/// slashes, gives the same segments.
pub proof fn law_split_is_stable(path: Seq<char>)
    requires
        segments(path).len() > 0,
    ensures
        segments(text::join_texts(segments(path), seq!['/'])) == segments(path),
{
    law_segments_are_names(path);
    law_split_undoes_join(segments(path));
}

/// Starts the search for a tag by its full path, without creating it. A path
/// without segments names no tag.
pub fn find_by_path<'a>(path: &'a str) -> (r: Option<PathWalk<'a>>)
    ensures
        r is Some <==> segments(path@).len() > 0,
        r matches Some(w) ==> w.rest() == segments(path@) && w.at() == 0,
{
    PathWalk::new(path)
}

/// Starts the walk that resolves a tag path to its leaf tag id, creating any
/// missing segments. A path without segments is refused.
pub fn resolve_or_create<'a>(path: &'a str) -> (r: Result<PathWalk<'a>, String>)
    ensures
        match r {
            Ok(w) => segments(path@).len() > 0 && w.rest() == segments(path@) && w.at() == 0,
            Err(message) => segments(path@).len() == 0 && message@ == "tag path must not be empty"@,
        },
{
    PathWalk::to_create(path)
}

/// Returns the full "/"-joined paths for a set of tag ids, given all tags.
pub fn full_paths(rows: &Vec<TagRow>, tag_ids: &Vec<i64>) -> (r: Vec<String>)
    requires
        forall|j: int| 0 <= j < tag_ids.len() ==> tagtree::settled(rows@, #[trigger] tag_ids@[j]),
    ensures
        text::texts(r@) == tagtree::paths_of(rows@, tag_ids@),
{
    tagtree::full_paths(rows, tag_ids)
}

/// The query for the tags of `n` photos.
pub fn photo_links_query(n: usize) -> (r: String)
    ensures
        r@ == "SELECT photo_id, tag_id FROM photo_tags WHERE photo_id IN ("@ + sql::marks(n as nat) + ")"@,
{
    let mut out = "SELECT photo_id, tag_id FROM photo_tags WHERE photo_id IN (".to_owned();
    let marks = sql::placeholders(n);
    out.append(marks.as_str());
    out.append(")");
    out
}

/// The tags of many photos, from all tags and the links of the photos.
pub fn tags_for_photos(
    rows: &Vec<TagRow>,
    photo_ids: &Vec<String>,
    links: &Vec<(String, i64)>,
) -> (r: StrMap<Vec<String>>)
    requires
        forall|j: int| 0 <= j < links.len() ==> tagtree::settled(rows@, (#[trigger] links@[j]).1),
    ensures
        tagtree::lists_tags(rows@, text::texts(photo_ids@), links@, r@),
{
    tagtree::tags_for_items(rows, photo_ids, links)
}

/// Why a tag was not renamed.
#[derive(Debug)]
pub enum RenameError {
    InvalidName,
    NotFound,
    NameConflict,
    Other(String),
}

/// Checks a request to rename a tag, and gives the name that it is to have:
/// `new_name` without the white space around it. The tag 0 is none.
pub fn rename(tag_id: i64, new_name: &str) -> (r: Result<String, RenameError>)
    ensures
        match r {
            Ok(name) => name@ == text::trimmed(new_name@) && valid_name(name@) && tag_id != 0,
            Err(e) => e is InvalidName && (!valid_name(text::trimmed(new_name@)) || tag_id == 0),
        },
{
    proof {
        text::lemma_trimmed(new_name@);
    }
    let name = text::trim(new_name);
    if name.unicode_len() == 0 || text::has_char(name, '/') || tag_id == 0 {
        return Err(RenameError::InvalidName);
    }
    Ok(name.to_owned())
}

/// What the database says to the renaming of a tag.
#[derive(Debug)]
pub enum Update {
    /// This many rows were changed.
    Changed(u64),
    /// A tag of that name is there already.
    Conflict,
    /// Something else failed.
    Failed(String),
}

/// The result of renaming a tag.
pub fn rename_outcome(update: Update) -> (r: Result<(), RenameError>)
    ensures
        r == (match update {
            Update::Changed(n) => if n == 0 {
                Err::<(), RenameError>(RenameError::NotFound)
            } else {
                Ok(())
            },
            Update::Conflict => Err(RenameError::NameConflict),
            Update::Failed(message) => Err(RenameError::Other(message)),
        }),
{
    match update {
        Update::Changed(n) => {
            if n == 0 {
                Err(RenameError::NotFound)
            } else {
                Ok(())
            }
        },
        Update::Conflict => Err(RenameError::NameConflict),
        Update::Failed(message) => Err(RenameError::Other(message)),
    }
}

/// Why a tag was not deleted.
#[derive(Debug)]
pub enum DeleteError {
    NotFound,
    Protected,
    Other(String),
}

/// Checks a request to delete a tag. The tag 0 and the trash tag, which exists
/// once a photo has been trashed, are protected.
pub fn delete(tag_id: i64, trash_tag_id: Option<i64>) -> (r: Result<(), DeleteError>)
    ensures
        r == (if tag_id == 0 || trash_tag_id == Some(tag_id) {
            Err::<(), DeleteError>(DeleteError::Protected)
        } else {
            Ok(())
        }),
{
    let is_trash = match trash_tag_id {
        Some(id) => id == tag_id,
        None => false,
    };
    if tag_id == 0 || is_trash {
        Err(DeleteError::Protected)
    } else {
        Ok(())
    }
}

/// The result of deleting a tag, from the number of rows that went.
pub fn delete_outcome(rows_affected: u64) -> (r: Result<(), DeleteError>)
    ensures
        r == (if rows_affected == 0 {
            Err::<(), DeleteError>(DeleteError::NotFound)
        } else {
            Ok(())
        }),
{
    if rows_affected == 0 {
        Err(DeleteError::NotFound)
    } else {
        Ok(())
    }
}

/// The tree of all tags but the trash tag, with the number of photos of each.
pub fn build_tree(rows: &Vec<TagRow>, counts: &Vec<(i64, i64)>) -> (r: Vec<TagNode>)
    requires
        tagtree::keyed(rows@),
    ensures
        tagtree::is_level(rows@, counts@, Some(TRASH_TAG@), 0, ""@, r@),
{
    let hidden: Option<&str> = Some(TRASH_TAG);
    assert(text::opt_text(hidden) == Some(TRASH_TAG@));
    tagtree::build_tree(rows, counts, hidden)
}

/// The trash tag is at the top of no tree.
pub proof fn law_trash_is_hidden(rows: Seq<TagRow>, counts: Seq<(i64, i64)>, nodes: Seq<TagNode>)
    requires
        tagtree::is_level(rows, counts, Some(TRASH_TAG@), 0, ""@, nodes),
    ensures
        forall|i: int| 0 <= i < nodes.len() ==> (#[trigger] nodes[i]).name@ != TRASH_TAG@,
{
    let level = tagtree::siblings(rows, 0, Some(TRASH_TAG@));
    tagtree::lemma_siblings(rows, 0, Some(TRASH_TAG@));
    assert forall|i: int| 0 <= i < nodes.len() implies (#[trigger] nodes[i]).name@ != TRASH_TAG@ by {
        assert(tagtree::is_node(rows, counts, Some(TRASH_TAG@), level[i], ""@, nodes[i]));
        assert(level.contains(level[i]));
    }
}

/// The tag that marks photos as deleted.
pub proof fn law_trash_tag_is_reserved()
    ensures
        TRASH_TAG@ == "trash"@,
        segments(TRASH_TAG@) == seq![TRASH_TAG@],
{
    reveal_strlit("trash");
    law_one_segment(TRASH_TAG@);
    text::lemma_trimmed(TRASH_TAG@);
}

proof fn lemma_kept_join(a: Seq<Seq<char>>, b: Seq<Seq<char>>)
    ensures
        kept(a + b) == kept(a) + kept(b),
    decreases b.len(),
{
    if b.len() == 0 {
        assert(a + b =~= a);
        assert(kept(a) + kept(b) =~= kept(a));
    } else {
        assert((a + b).drop_last() =~= a + b.drop_last());
        lemma_kept_join(a, b.drop_last());
        assert(kept(a + b) =~= kept(a) + kept(b));
    }
}

/// A path without slashes is one segment, without the white space around it, and
/// none if nothing is left.
pub proof fn law_one_segment(piece: Seq<char>)
    requires
        !piece.contains('/'),
    ensures
        segments(piece) == (if text::trimmed(piece).len() > 0 {
            seq![text::trimmed(piece)]
        } else {
            Seq::empty()
        }),
{
    text::law_splitting(piece, piece, '/');
    assert(seq![piece].drop_last() =~= Seq::<Seq<char>>::empty());
    assert(kept(seq![piece].drop_last()) =~= Seq::<Seq<char>>::empty());
    assert(Seq::<Seq<char>>::empty().push(text::trimmed(piece)) =~= seq![text::trimmed(piece)]);
}

/// The segments of two paths with a slash between them are those of the one and
/// then those of the other.
pub proof fn law_segments_follow_each_other(a: Seq<char>, b: Seq<char>)
    ensures
        segments(a + seq!['/'] + b) == segments(a) + segments(b),
{
    text::law_splitting(a, b, '/');
    lemma_kept_join(text::split_on(a, '/'), text::split_on(b, '/'));
}

/// A text can be the name of a tag exactly if it is not empty, holds no slash,
/// and neither begins nor ends with white space; then it is the one segment of
/// the path that it is.
pub proof fn law_name_is_its_own_path(name: Seq<char>)
    ensures
        valid_name(name) <==> name.len() > 0 && !name.contains('/') && !text::is_space(name[0]) && !text::is_space(
            name[name.len() - 1],
        ),
        valid_name(name) ==> segments(name) == seq![name],
{
    if valid_name(name) {
        law_one_segment(name);
        text::lemma_trimmed(name);
    }
}

} // verus!
