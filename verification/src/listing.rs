//! Putting rows and their tags together.
use vstd::prelude::*;

use crate::models::{Photo, PhotoRow};
use crate::strmap::StrMap;
use crate::text;

verus! {

/// The tags of row `i`: those listed for its identifier, unless a row before it
/// has the same one.
pub open spec fn tags_at(ids: Seq<Seq<char>>, tags: Map<Seq<char>, Vec<String>>, i: int) -> Seq<Seq<char>> {
    if tags.contains_key(ids[i]) && !ids.take(i).contains(ids[i]) {
        text::texts(tags[ids[i]]@)
    } else {
        Seq::empty()
    }
}

/// The tags of each row, by the identifiers of the rows.
pub fn tags_by_row(ids: &Vec<String>, tags: &StrMap<Vec<String>>) -> (r: Vec<Vec<String>>)
    ensures
        r.len() == ids.len(),
        forall|i: int| 0 <= i < r.len() ==> text::texts((#[trigger] r@[i])@) == tags_at(text::texts(ids@), tags@, i),
{
    let ghost keys = text::texts(ids@);
    let mut seen: StrMap<()> = StrMap::new();
    let mut out: Vec<Vec<String>> = Vec::new();
    let mut i: usize = 0;
    while i < ids.len()
        invariant
            i <= ids.len(),
            out.len() == i,
            keys == text::texts(ids@),
            forall|k: Seq<char>| #[trigger] seen@.contains_key(k) <==> keys.take(i as int).contains(k),
            forall|j: int| 0 <= j < i ==> text::texts((#[trigger] out@[j])@) == tags_at(keys, tags@, j),
        decreases ids.len() - i,
    {
        let ghost key = ids@[i as int]@;
        let first = !seen.contains_key(ids[i].as_str());
        let list: Vec<String> = match tags.get(ids[i].as_str()) {
            Some(l) => {
                if first {
                    l.clone()
                } else {
                    Vec::new()
                }
            },
            None => Vec::new(),
        };
        proof {
            assert(keys[i as int] == key);
            if !(first && tags@.contains_key(key)) {
                assert(text::texts(list@) =~= Seq::<Seq<char>>::empty());
            }
            let now = keys.take(i as int);
            let next = keys.take(i + 1);
            assert(next =~= now.push(key));
            assert forall|k: Seq<char>| #[trigger] next.contains(k) <==> now.contains(k) || k == key by {
                if now.contains(k) {
                    assert(next[now.index_of(k)] == k);
                }
                assert(next[now.len() as int] == key);
            }
        }
        out.push(list);
        seen.insert(ids[i].clone(), ());
        i = i + 1;
    }
    out
}

/// The identifiers of rows.
pub open spec fn row_ids(rows: Seq<PhotoRow>) -> Seq<Seq<char>> {
    rows.map_values(|row: PhotoRow| row.id@)
}

/// The identifiers of rows.
pub fn ids_of(rows: &Vec<PhotoRow>) -> (r: Vec<String>)
    ensures
        text::texts(r@) == row_ids(rows@),
{
    let mut out: Vec<String> = Vec::new();
    let mut i: usize = 0;
    while i < rows.len()
        invariant
            i <= rows.len(),
            out.len() == i,
            forall|j: int| 0 <= j < i ==> (#[trigger] out@[j])@ == rows@[j].id@,
        decreases rows.len() - i,
    {
        out.push(rows[i].id.clone());
        i = i + 1;
    }
    assert(text::texts(out@) =~= row_ids(rows@));
    out
}

/// Whether `photos` are the photos of `rows`, in their order, with the tags that
/// are listed for them.
pub open spec fn are_photos(rows: Seq<PhotoRow>, tags: Map<Seq<char>, Vec<String>>, photos: Seq<Photo>) -> bool {
    &&& photos.len() == rows.len()
    &&& forall|i: int|
        0 <= i < photos.len() ==> (#[trigger] photos[i]).row() == rows[i] && text::texts(photos[i].tags@) == tags_at(
            row_ids(rows),
            tags,
            i,
        )
}

/// The photos of rows, in their order, with the tags that are listed for them.
pub fn photos_from_rows(rows: Vec<PhotoRow>, tags: &StrMap<Vec<String>>) -> (r: Vec<Photo>)
    ensures
        are_photos(rows@, tags@, r@),
{
    let ids = ids_of(&rows);
    assert(text::texts(ids@).len() == row_ids(rows@).len());
    let mut lists = tags_by_row(&ids, tags);
    let ghost all = rows@;
    let ghost given = lists@;
    let mut rows = rows;
    let mut out: Vec<Photo> = Vec::new();
    while rows.len() > 0
        invariant
            rows.len() == lists.len(),
            given.len() == all.len(),
            rows.len() + out.len() == all.len(),
            rows@ == all.skip(out.len() as int),
            lists@ == given.skip(out.len() as int),
            forall|i: int|
                0 <= i < out.len() ==> (#[trigger] out@[i]).row() == all[i] && out@[i].tags == given[i],
        decreases rows.len(),
    {
        let row = rows.remove(0);
        let list = lists.remove(0);
        out.push(Photo::from_row(row, list));
        assert(rows@ =~= all.skip(out.len() as int));
        assert(lists@ =~= given.skip(out.len() as int));
    }
    out
}

/// Every photo of a list comes from its row, and has the tags that are listed
/// for its identifier, where no two rows have one: none if nothing is listed for
/// it.
pub proof fn law_photos_carry_their_tags(
    rows: Seq<PhotoRow>,
    tags: Map<Seq<char>, Vec<String>>,
    photos: Seq<Photo>,
    i: int,
)
    requires
        are_photos(rows, tags, photos),
        0 <= i < rows.len(),
        forall|a: int, b: int| 0 <= a < b < rows.len() ==> (#[trigger] rows[a]).id@ != (#[trigger] rows[b]).id@,
    ensures
        photos.len() == rows.len(),
        photos[i].id == rows[i].id && photos[i].hash == rows[i].hash,
        photos[i].created_at == rows[i].created_at && photos[i].media_type == rows[i].media_type,
        tags.contains_key(rows[i].id@) ==> text::texts(photos[i].tags@) == text::texts(tags[rows[i].id@]@),
        !tags.contains_key(rows[i].id@) ==> photos[i].tags@.len() == 0,
{
    let ids = row_ids(rows);
    assert(ids[i] == rows[i].id@);
    assert(photos[i].row() == rows[i]);
    assert(!ids.take(i).contains(ids[i])) by {
        if ids.take(i).contains(ids[i]) {
            let m = ids.take(i).index_of(ids[i]);
            assert(ids[m] == rows[m].id@);
        }
    }
    assert(text::texts(photos[i].tags@).len() == photos[i].tags@.len());
}

/// The tags of an item are given to its first row, and to no other.
pub proof fn law_first_row_takes_the_tags(ids: Seq<Seq<char>>, tags: Map<Seq<char>, Vec<String>>, i: int)
    requires
        0 <= i < ids.len(),
    ensures
        tags.contains_key(ids[i]) && (forall|j: int| 0 <= j < i ==> #[trigger] ids[j] != ids[i]) ==> tags_at(ids, tags, i)
            == text::texts(tags[ids[i]]@),
        !tags.contains_key(ids[i]) ==> tags_at(ids, tags, i).len() == 0,
        (exists|j: int| 0 <= j < i && #[trigger] ids[j] == ids[i]) ==> tags_at(ids, tags, i).len() == 0,
{
    let front = ids.take(i);
    if front.contains(ids[i]) {
        assert(ids[front.index_of(ids[i])] == ids[i]);
    }
    if exists|j: int| 0 <= j < i && #[trigger] ids[j] == ids[i] {
        let j = choose|j: int| 0 <= j < i && #[trigger] ids[j] == ids[i];
        assert(front[j] == ids[i]);
    }
}

/// Rows are told apart by their identifiers, one for each.
pub proof fn law_rows_have_their_ids(rows: Seq<PhotoRow>)
    ensures
        row_ids(rows).len() == rows.len(),
        forall|i: int| 0 <= i < rows.len() ==> #[trigger] row_ids(rows)[i] == rows[i].id@,
{
}

} // verus!
