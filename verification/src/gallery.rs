//! Galleries: ordered lists of photos.
use vstd::prelude::*;

use crate::ids;
use crate::listing;
use crate::models::{Gallery, GalleryDetail, Photo, PhotoRow};
use crate::sql;
use crate::strmap::StrMap;
use crate::text;

verus! {

/// A row for the table `galleries`.
#[derive(Debug)]
pub struct NewGallery {
    pub id: String,
    pub title: String,
    pub description: Option<String>,
}

/// A new gallery, under a fresh identifier.
pub fn create(title: &str, description: Option<String>) -> (r: NewGallery)
    ensures
        ids::is_id(r.id@),
        r.title@ == title@,
        r.description == description,
{
    NewGallery { id: ids::new_id(), title: title.to_owned(), description }
}

/// What the summary query gives for a gallery: identifier, title, description,
/// time of creation, number of photos, and the first photo.
pub type SummaryRow = (String, String, Option<String>, String, i64, Option<String>);

/// The query for summaries, up to its conditions.
pub const SUMMARY_QUERY: &'static str =
    "SELECT g.id, g.title, g.description, g.created_at, COUNT(DISTINCT gp.photo_id), (SELECT photo_id FROM gallery_photos WHERE gallery_id = g.id ORDER BY position LIMIT 1) FROM galleries g LEFT JOIN gallery_photos gp ON gp.gallery_id = g.id";

/// The gallery that a summary row and its tags make.
pub fn summary_from_row(row: SummaryRow, tags: Vec<String>) -> (r: Gallery)
    ensures
        r == (Gallery {
            id: row.0,
            title: row.1,
            description: row.2,
            cover_photo_id: row.5,
            photo_count: row.4,
            tags,
            created_at: row.3,
        }),
{
    let (id, title, description, created_at, photo_count, cover_photo_id) = row;
    Gallery { id, title, description, cover_photo_id, photo_count, tags, created_at }
}

/// The query for the summary of one gallery.
pub fn summary_query() -> (r: String)
    ensures
        r@ == SUMMARY_QUERY@ + " WHERE g.id = ? GROUP BY g.id"@,
{
    let mut out = SUMMARY_QUERY.to_owned();
    out.append(" WHERE g.id = ? GROUP BY g.id");
    out
}

/// The query for the summaries of galleries, most recently created first. When
/// the number of gallery tags is given, only galleries carrying one of that many
/// tags are asked for; with no tag there is nothing to ask.
pub open spec fn list_text(tags: Option<nat>) -> Option<Seq<char>> {
    match tags {
        None => Some(SUMMARY_QUERY@ + " GROUP BY g.id ORDER BY g.created_at DESC"@),
        Some(n) => if n == 0 {
            None
        } else {
            Some(
                SUMMARY_QUERY@ + " JOIN gallery_tag_links gt ON gt.gallery_id = g.id WHERE gt.tag_id IN ("@
                    + sql::marks(n) + ") GROUP BY g.id ORDER BY g.created_at DESC"@,
            )
        },
    }
}

/// The query for the summaries of galleries, most recently created first, to be
/// bound to `tag_ids` where they are given. None means that no gallery is asked
/// for.
pub fn list_query(tag_ids: &Option<Vec<i64>>) -> (r: Option<String>)
    ensures
        ({
            let n = match tag_ids {
                Some(ids) => Some(ids@.len()),
                None => None,
            };
            match r {
                Some(q) => list_text(n) == Some(q@),
                None => list_text(n) is None,
            }
        }),
        match tag_ids {
            None => r is Some && r->0@ == SUMMARY_QUERY@ + " GROUP BY g.id ORDER BY g.created_at DESC"@,
            Some(ids) => {
                &&& r is None <==> ids.len() == 0
                &&& r is Some ==> r->0@ == SUMMARY_QUERY@
                    + " JOIN gallery_tag_links gt ON gt.gallery_id = g.id WHERE gt.tag_id IN ("@ + sql::marks(ids@.len())
                    + ") GROUP BY g.id ORDER BY g.created_at DESC"@
            },
        },
{
    let mut out = SUMMARY_QUERY.to_owned();
    match tag_ids {
        None => {
            out.append(" GROUP BY g.id ORDER BY g.created_at DESC");
        },
        Some(ids) => {
            if ids.len() == 0 {
                return None;
            }
            let marks = sql::placeholders(ids.len());
            out.append(" JOIN gallery_tag_links gt ON gt.gallery_id = g.id WHERE gt.tag_id IN (");
            out.append(marks.as_str());
            out.append(") GROUP BY g.id ORDER BY g.created_at DESC");
        },
    }
    Some(out)
}

/// The identifiers of summary rows.
pub open spec fn summary_ids(rows: Seq<SummaryRow>) -> Seq<Seq<char>> {
    rows.map_values(|row: SummaryRow| row.0@)
}

/// The identifiers of summary rows.
pub fn ids_of(rows: &Vec<SummaryRow>) -> (r: Vec<String>)
    ensures
        text::texts(r@) == summary_ids(rows@),
{
    let mut out: Vec<String> = Vec::new();
    let mut i: usize = 0;
    while i < rows.len()
        invariant
            i <= rows.len(),
            out.len() == i,
            forall|j: int| 0 <= j < i ==> (#[trigger] out@[j])@ == rows@[j].0@,
        decreases rows.len() - i,
    {
        out.push(rows[i].0.clone());
        i = i + 1;
    }
    assert(text::texts(out@) =~= summary_ids(rows@));
    out
}

/// Whether `g` is the gallery of a summary row with these tags.
pub open spec fn is_summary(row: SummaryRow, tags: Seq<Seq<char>>, g: Gallery) -> bool {
    &&& g.id == row.0
    &&& g.title == row.1
    &&& g.description == row.2
    &&& g.created_at == row.3
    &&& g.photo_count == row.4
    &&& g.cover_photo_id == row.5
    &&& text::texts(g.tags@) == tags
}

/// The galleries of summary rows, in their order, with the tags that are listed
/// for them.
pub fn list_summaries(rows: Vec<SummaryRow>, tags: &StrMap<Vec<String>>) -> (r: Vec<Gallery>)
    ensures
        r.len() == rows.len(),
        forall|i: int|
            0 <= i < r.len() ==> is_summary(
                rows@[i],
                listing::tags_at(summary_ids(rows@), tags@, i),
                #[trigger] r@[i],
            ),
{
    let ids = ids_of(&rows);
    assert(text::texts(ids@).len() == summary_ids(rows@).len());
    let mut lists = listing::tags_by_row(&ids, tags);
    let ghost all = rows@;
    let ghost given = lists@;
    let mut rows = rows;
    let mut out: Vec<Gallery> = Vec::new();
    while rows.len() > 0
        invariant
            rows.len() == lists.len(),
            given.len() == all.len(),
            rows.len() + out.len() == all.len(),
            rows@ == all.skip(out.len() as int),
            lists@ == given.skip(out.len() as int),
            forall|i: int| 0 <= i < out.len() ==> is_summary(all[i], text::texts(given[i]@), #[trigger] out@[i]),
        decreases rows.len(),
    {
        let row = rows.remove(0);
        let list = lists.remove(0);
        out.push(summary_from_row(row, list));
        assert(rows@ =~= all.skip(out.len() as int));
        assert(lists@ =~= given.skip(out.len() as int));
    }
    out
}

/// The query for the photos of a gallery, in their order.
pub const PAGES_QUERY: &'static str =
    "SELECT p.id, p.hash, p.original_filename, p.mime_type, p.media_type, p.file_size, p.width, p.height, p.duration_seconds, p.taken_at, p.created_at FROM photos p JOIN gallery_photos gp ON gp.photo_id = p.id WHERE gp.gallery_id = ? ORDER BY gp.position";

/// What is stored of a gallery: identifier, title, description, time of
/// creation.
pub type GalleryRow = (String, String, Option<String>, String);

/// A gallery with its pages, from its row, the rows of its photos in their
/// order, the tags that are listed for them, and its own tags.
pub fn get_detail(
    row: GalleryRow,
    photo_rows: Vec<PhotoRow>,
    photo_tags: &StrMap<Vec<String>>,
    tags: Vec<String>,
) -> (r: GalleryDetail)
    ensures
        r.id == row.0,
        r.title == row.1,
        r.description == row.2,
        r.created_at == row.3,
        r.tags == tags,
        listing::are_photos(photo_rows@, photo_tags@, r.photos@),
{
    let (id, title, description, created_at) = row;
    let photos: Vec<Photo> = listing::photos_from_rows(photo_rows, photo_tags);
    GalleryDetail { id, title, description, tags, created_at, photos }
}

/// What to store when a gallery is changed. What is not given stays; a title
/// loses the white space around it.
pub fn update(title: Option<&str>, description: Option<&str>) -> (r: (Option<String>, Option<String>))
    ensures
        r.0 is Some <==> title is Some,
        r.0 matches Some(t) ==> t@ == text::trimmed(title->0@),
        r.1 is Some <==> description is Some,
        r.1 matches Some(d) ==> d@ == description->0@,
{
    let new_title = match title {
        Some(t) => Some(text::trim(t).to_owned()),
        None => None,
    };
    let new_description = match description {
        Some(d) => Some(d.to_owned()),
        None => None,
    };
    (new_title, new_description)
}

/// Whether a gallery was deleted, from the number of rows that went.
pub fn delete(rows_affected: u64) -> (r: bool)
    ensures
        r == (rows_affected > 0),
{
    rows_affected > 0
}

/// The place from which photos are added to a gallery: that of its last photo,
/// or 0 if it has none.
pub open spec fn last_place(max_position: Option<i64>) -> i64 {
    match max_position {
        Some(p) => p,
        None => 0,
    }
}

/// The place behind `last`, if there is one.
pub open spec fn place_behind(last: i64) -> Option<i64> {
    if last < i64::MAX {
        Some((last + 1) as i64)
    } else {
        None
    }
}

/// The last place after a photo was offered the place behind `last`.
pub open spec fn last_after(last: i64, written: bool) -> i64 {
    match place_behind(last) {
        Some(p) if written => p,
        _ => last,
    }
}

/// The places at the end of a gallery.
#[derive(Debug)]
pub struct Appender {
    pub last: i64,
}

impl Appender {
    /// Starts behind the last photo of a gallery. An empty gallery has none.
    pub fn new(max_position: Option<i64>) -> (r: Self)
        ensures
            r.last == last_place(max_position),
    {
        let last: i64 = match max_position {
            Some(p) => p,
            None => 0,
        };
        Appender { last }
    }

    /// The place to offer to the next photo. None is left behind the greatest
    /// place; a photo that is not in the gallery cannot be added then.
    pub fn place(&self) -> (r: Option<i64>)
        ensures
            r == place_behind(self.last),
    {
        if self.last < i64::MAX {
            Some(self.last + 1)
        } else {
            None
        }
    }

    /// Goes on after a photo was offered the next place. The place is used up
    /// only if a row was written.
    pub fn offered(&mut self, rows_affected: u64)
        ensures
            final(self).last == last_after(old(self).last, rows_affected > 0),
    {
        if rows_affected > 0 && self.last < i64::MAX {
            self.last = self.last + 1;
        }
    }
}

/// The pages of a gallery after the photos `ids` were offered the places behind
/// `last`, in their order. A photo that is there already is left where it is,
/// and one for which no place is left is not added.
pub open spec fn appended(pages: Map<Seq<char>, int>, ids: Seq<Seq<char>>, last: i64) -> Map<Seq<char>, int>
    decreases ids.len(),
{
    if ids.len() == 0 {
        pages
    } else if pages.contains_key(ids[0]) {
        appended(pages, ids.skip(1), last_after(last, false))
    } else {
        match place_behind(last) {
            Some(p) => appended(pages.insert(ids[0], p as int), ids.skip(1), last_after(last, true)),
            None => appended(pages, ids.skip(1), last_after(last, false)),
        }
    }
}

/// Whether no two photos are at one place.
pub open spec fn places_apart(pages: Map<Seq<char>, int>) -> bool {
    forall|a: Seq<char>, b: Seq<char>|
        #[trigger] pages.contains_key(a) && #[trigger] pages.contains_key(b) && a != b ==> pages[a] != pages[b]
}

/// Whether `max_position` is the greatest place of a gallery.
pub open spec fn is_greatest(pages: Map<Seq<char>, int>, max_position: Option<i64>) -> bool {
    match max_position {
        Some(m) => {
            &&& exists|k: Seq<char>| #[trigger] pages.contains_key(k) && pages[k] == m
            &&& forall|k: Seq<char>| #[trigger] pages.contains_key(k) ==> pages[k] <= m
        },
        None => forall|k: Seq<char>| !#[trigger] pages.contains_key(k),
    }
}

/// Whether `order` lists the photos of a gallery by their places.
pub open spec fn in_order(pages: Map<Seq<char>, int>, order: Seq<Seq<char>>) -> bool {
    &&& forall|k: Seq<char>| #[trigger] order.contains(k) <==> pages.contains_key(k)
    &&& forall|i: int, j: int| 0 <= i < j < order.len() ==> pages[#[trigger] order[i]] < pages[#[trigger] order[j]]
}

/// Those of `ids` that are not in `order`, each where it is first named.
pub open spec fn fresh_ids(order: Seq<Seq<char>>, ids: Seq<Seq<char>>) -> Seq<Seq<char>>
    decreases ids.len(),
{
    if ids.len() == 0 {
        Seq::empty()
    } else {
        let before = fresh_ids(order, ids.drop_last());
        if order.contains(ids.last()) || ids.drop_last().contains(ids.last()) {
            before
        } else {
            before.push(ids.last())
        }
    }
}

proof fn lemma_push_contains(s: Seq<Seq<char>>, x: Seq<char>)
    ensures
        forall|k: Seq<char>| #[trigger] s.push(x).contains(k) <==> s.contains(k) || k == x,
{
    assert forall|k: Seq<char>| #[trigger] s.push(x).contains(k) <==> s.contains(k) || k == x by {
        if s.contains(k) {
            assert(s.push(x)[s.index_of(k)] == k);
        }
        assert(s.push(x)[s.len() as int] == x);
    }
}

proof fn lemma_fresh_front(order: Seq<Seq<char>>, first: Seq<char>, rest: Seq<Seq<char>>)
    ensures
        fresh_ids(order, seq![first] + rest) == (if order.contains(first) {
            fresh_ids(order, rest)
        } else {
            seq![first] + fresh_ids(order.push(first), rest)
        }),
    decreases rest.len(),
{
    let ids = seq![first] + rest;
    lemma_push_contains(order, first);
    if rest.len() == 0 {
        assert(ids.drop_last() =~= Seq::<Seq<char>>::empty());
        assert(ids.last() == first);
        assert(fresh_ids(order, ids.drop_last()) =~= Seq::<Seq<char>>::empty());
        assert(!ids.drop_last().contains(first));
        assert(fresh_ids(order.push(first), rest) =~= Seq::<Seq<char>>::empty());
        assert(Seq::<Seq<char>>::empty().push(first) =~= seq![first] + fresh_ids(order.push(first), rest));
    } else {
        let front = rest.drop_last();
        let last = rest.last();
        lemma_fresh_front(order, first, front);
        assert(ids.drop_last() =~= seq![first] + front);
        assert(ids.last() == last);
        assert(ids.drop_last().contains(last) <==> last == first || front.contains(last)) by {
            let head = seq![first] + front;
            assert(head[0] == first);
            if front.contains(last) {
                assert(head[front.index_of(last) + 1] == last);
            }
            if head.contains(last) {
                let m = head.index_of(last);
                if m > 0 {
                    assert(front[m - 1] == last);
                }
            }
        }
        if !order.contains(first) {
            let f = fresh_ids(order.push(first), front);
            assert((seq![first] + f).push(last) =~= seq![first] + f.push(last));
        }
    }
}

/// How many of `n` photos find a place behind `last`.
pub open spec fn with_room(n: nat, last: i64) -> int {
    if n <= i64::MAX - last {
        n as int
    } else {
        i64::MAX - last
    }
}

proof fn lemma_appended_in_order(
    pages: Map<Seq<char>, int>,
    order: Seq<Seq<char>>,
    ids: Seq<Seq<char>>,
    last: i64,
)
    requires
        in_order(pages, order),
        forall|k: Seq<char>| #[trigger] pages.contains_key(k) ==> pages[k] <= last,
    ensures
        in_order(
            appended(pages, ids, last),
            order + fresh_ids(order, ids).take(with_room(fresh_ids(order, ids).len(), last)),
        ),
    decreases ids.len(),
{
    let fresh = fresh_ids(order, ids);
    let room = with_room(fresh.len(), last);
    if ids.len() == 0 {
        assert(order + fresh.take(room) =~= order);
    } else {
        let first = ids[0];
        let rest = ids.skip(1);
        assert(ids =~= seq![first] + rest);
        lemma_fresh_front(order, first, rest);
        assert(order.contains(first) <==> pages.contains_key(first));
        if pages.contains_key(first) {
            lemma_appended_in_order(pages, order, rest, last);
        } else if last < i64::MAX {
            let next: i64 = (last + 1) as i64;
            let more = pages.insert(first, next as int);
            let longer = order.push(first);
            lemma_push_contains(order, first);
            assert forall|i: int, j: int| 0 <= i < j < longer.len() implies more[#[trigger] longer[i]]
                < more[#[trigger] longer[j]] by {
                assert(order.contains(order[i]));
                if j < order.len() {
                    assert(order.contains(order[j]));
                    assert(longer[i] == order[i] && longer[j] == order[j]);
                }
            }
            lemma_appended_in_order(more, longer, rest, next);
            let behind = fresh_ids(longer, rest);
            let room_behind = with_room(behind.len(), next);
            assert(fresh.take(room) =~= seq![first] + behind.take(room_behind));
            assert(longer + behind.take(room_behind) =~= order + fresh.take(room));
        } else {
            lemma_appended_in_order(pages, order, rest, last);
            let behind = fresh_ids(order, rest);
            assert(order + fresh.take(room) =~= order);
            assert(order + behind.take(with_room(behind.len(), last)) =~= order);
        }
    }
}

/// Whether a photo is at the greatest place that there is.
spec fn is_full(pages: Map<Seq<char>, int>) -> bool {
    exists|k: Seq<char>| #[trigger] pages.contains_key(k) && pages[k] == i64::MAX
}

proof fn lemma_appended_keeps(pages: Map<Seq<char>, int>, ids: Seq<Seq<char>>, last: i64)
    requires
        last == i64::MAX ==> is_full(pages),
    ensures
        forall|k: Seq<char>| #[trigger]
            pages.contains_key(k) ==> appended(pages, ids, last).contains_key(k) && appended(pages, ids, last)[k]
                == pages[k],
        forall|k: Seq<char>| #[trigger]
            appended(pages, ids, last).contains_key(k) && !pages.contains_key(k) ==> appended(pages, ids, last)[k]
                > last,
        is_full(appended(pages, ids, last)) || forall|i: int|
            0 <= i < ids.len() ==> appended(pages, ids, last).contains_key(#[trigger] ids[i]),
    decreases ids.len(),
{
    if ids.len() > 0 {
        let first = ids[0];
        let rest = ids.skip(1);
        let after = appended(pages, ids, last);
        let (more, then_last) = if pages.contains_key(first) || last == i64::MAX {
            (pages, last)
        } else {
            (pages.insert(first, last + 1), (last + 1) as i64)
        };
        if then_last == i64::MAX && last < i64::MAX {
            assert(more.contains_key(first) && more[first] == i64::MAX);
        }
        lemma_appended_keeps(more, rest, then_last);
        assert(after == appended(more, rest, then_last));
        assert forall|k: Seq<char>| #[trigger] pages.contains_key(k) implies after.contains_key(k) && after[k]
            == pages[k] by {
            assert(more.contains_key(k));
        }
        assert forall|k: Seq<char>| #[trigger] after.contains_key(k) && !pages.contains_key(k) implies after[k]
            > last by {
            if k == first {
                assert(more.contains_key(k) ==> more[k] == last + 1);
            }
        }
        if last == i64::MAX {
            let k = choose|k: Seq<char>| #[trigger] pages.contains_key(k) && pages[k] == i64::MAX;
            assert(after.contains_key(k) && after[k] == i64::MAX);
        } else if !is_full(after) {
            assert(more.contains_key(first));
            assert forall|i: int| 0 <= i < ids.len() implies after.contains_key(#[trigger] ids[i]) by {
                if i > 0 {
                    assert(rest[i - 1] == ids[i]);
                }
            }
        }
    }
}

proof fn lemma_appended_nothing(pages: Map<Seq<char>, int>, ids: Seq<Seq<char>>, last: i64)
    requires
        last == i64::MAX || forall|i: int| 0 <= i < ids.len() ==> pages.contains_key(#[trigger] ids[i]),
    ensures
        appended(pages, ids, last) == pages,
    decreases ids.len(),
{
    if ids.len() > 0 {
        let rest = ids.skip(1);
        if last < i64::MAX {
            assert(pages.contains_key(ids[0]));
            assert forall|i: int| 0 <= i < rest.len() implies pages.contains_key(#[trigger] rest[i]) by {
                assert(rest[i] == ids[i + 1]);
            }
        }
        lemma_appended_nothing(pages, rest, last);
    }
}

proof fn lemma_in_order_apart(pages: Map<Seq<char>, int>, order: Seq<Seq<char>>)
    requires
        in_order(pages, order),
    ensures
        places_apart(pages),
{
    assert forall|a: Seq<char>, b: Seq<char>|
        #[trigger] pages.contains_key(a) && #[trigger] pages.contains_key(b) && a != b implies pages[a] != pages[b] by {
        assert(order.contains(a) && order.contains(b));
        let (i, j) = (order.index_of(a), order.index_of(b));
        if i < j {
            assert(pages[order[i]] < pages[order[j]]);
        } else {
            assert(pages[order[j]] < pages[order[i]]);
        }
    }
}

/// Adding photos moves none that is in the gallery, and no place is taken twice.
/// Afterwards the pages, by their places, are those that were there, followed by
/// the photos that were not, in the order in which they are first named; where
/// places run out, by as many of them as there are places behind the last photo.
pub proof fn law_added_photos_follow_in_order(
    pages: Map<Seq<char>, int>,
    order: Seq<Seq<char>>,
    ids: Seq<Seq<char>>,
    max_position: Option<i64>,
)
    requires
        in_order(pages, order),
        is_greatest(pages, max_position),
    ensures
        ({
            let last = last_place(max_position);
            let after = appended(pages, ids, last);
            let fresh = fresh_ids(order, ids);
            &&& forall|k: Seq<char>| #[trigger] pages.contains_key(k) ==> after.contains_key(k) && after[k] == pages[k]
            &&& forall|k: Seq<char>| #[trigger] after.contains_key(k) && !pages.contains_key(k) ==> after[k] > last
            &&& places_apart(after)
            &&& in_order(after, order + fresh.take(with_room(fresh.len(), last)))
            &&& fresh.len() <= i64::MAX - last ==> in_order(after, order + fresh)
        }),
{
    let last = last_place(max_position);
    let fresh = fresh_ids(order, ids);
    lemma_appended_in_order(pages, order, ids, last);
    lemma_in_order_apart(appended(pages, ids, last), order + fresh.take(with_room(fresh.len(), last)));
    lemma_appended_keeps(pages, ids, last);
    if fresh.len() <= i64::MAX - last {
        assert(fresh.take(fresh.len() as int) =~= fresh);
    }
}

/// Adding the same photos a second time changes nothing.
pub proof fn law_adding_twice_changes_nothing(
    pages: Map<Seq<char>, int>,
    ids: Seq<Seq<char>>,
    max_position: Option<i64>,
    max_position_again: Option<i64>,
)
    requires
        is_greatest(pages, max_position),
        is_greatest(appended(pages, ids, last_place(max_position)), max_position_again),
    ensures
        ({
            let after = appended(pages, ids, last_place(max_position));
            appended(after, ids, last_place(max_position_again)) == after
        }),
{
    let after = appended(pages, ids, last_place(max_position));
    lemma_appended_keeps(pages, ids, last_place(max_position));
    lemma_appended_nothing(after, ids, last_place(max_position_again));
}

/// Why a gallery was not reordered.
#[derive(Debug)]
pub enum ReorderError {
    Mismatch,
    Other(String),
}

/// Whether `ids` holds each of `current` exactly once, and nothing else.
pub open spec fn is_order_of(ids: Seq<Seq<char>>, current: Seq<Seq<char>>) -> bool {
    ids.no_duplicates() && forall|k: Seq<char>| #[trigger] ids.contains(k) <==> current.contains(k)
}

/// Replaces a gallery's page order wholesale: `photo_ids` must contain
/// exactly the photo ids currently in the gallery, in their new order. A
/// mismatched set (missing or unexpected ids) is rejected outright rather
/// than silently reconciled, since silently dropping/appending pages would
/// be surprising for a manual reorder action. Gives each photo with its new
/// place.
pub fn reorder(current: &Vec<String>, photo_ids: &Vec<String>) -> (r: Result<Vec<(String, i64)>, ReorderError>)
    requires
        photo_ids.len() <= i64::MAX,
    ensures
        match r {
            Ok(places) => {
                &&& is_order_of(text::texts(photo_ids@), text::texts(current@))
                &&& places.len() == photo_ids.len()
                &&& forall|i: int|
                    0 <= i < places.len() ==> (#[trigger] places@[i]).0@ == photo_ids@[i]@ && places@[i].1 == i + 1
            },
            Err(e) => e is Mismatch && !is_order_of(text::texts(photo_ids@), text::texts(current@)),
        },
{
    let ghost new = text::texts(photo_ids@);
    let ghost old_ids = text::texts(current@);
    let mut seen: StrMap<()> = StrMap::new();
    let mut places: Vec<(String, i64)> = Vec::new();
    let mut i: usize = 0;
    while i < photo_ids.len()
        invariant
            i <= photo_ids.len(),
            photo_ids.len() <= i64::MAX,
            new == text::texts(photo_ids@),
            old_ids == text::texts(current@),
            places.len() == i,
            forall|j: int| 0 <= j < i ==> (#[trigger] places@[j]).0@ == photo_ids@[j]@ && places@[j].1 == j + 1,
            forall|k: Seq<char>| #[trigger] seen@.contains_key(k) <==> new.take(i as int).contains(k),
            new.take(i as int).no_duplicates(),
            forall|k: Seq<char>| #[trigger] new.take(i as int).contains(k) ==> old_ids.contains(k),
        decreases photo_ids.len() - i,
    {
        let ghost id = photo_ids@[i as int]@;
        let ghost now = new.take(i as int);
        let ghost next = new.take(i + 1);
        assert(new[i as int] == id);
        assert(next =~= now.push(id));
        assert forall|k: Seq<char>| #[trigger] next.contains(k) <==> now.contains(k) || k == id by {
            if now.contains(k) {
                assert(next[now.index_of(k)] == k);
            }
            assert(next[now.len() as int] == id);
        }
        if seen.contains_key(photo_ids[i].as_str()) {
            assert(!new.no_duplicates()) by {
                let m = now.index_of(id);
                assert(new[m] == id && new[i as int] == id);
            }
            return Err(ReorderError::Mismatch);
        }
        if !text::holds(current, photo_ids[i].as_str()) {
            assert(new.contains(id));
            return Err(ReorderError::Mismatch);
        }
        places.push((photo_ids[i].clone(), i as i64 + 1));
        seen.insert(photo_ids[i].clone(), ());
        i = i + 1;
    }
    assert(new.take(i as int) =~= new);
    let mut j: usize = 0;
    while j < current.len()
        invariant
            j <= current.len(),
            new == text::texts(photo_ids@),
            old_ids == text::texts(current@),
            forall|k: Seq<char>| #[trigger] seen@.contains_key(k) <==> new.contains(k),
            forall|m: int| 0 <= m < j ==> new.contains(#[trigger] old_ids[m]),
        decreases current.len() - j,
    {
        assert(old_ids[j as int] == current@[j as int]@);
        if !seen.contains_key(current[j].as_str()) {
            assert(old_ids.contains(old_ids[j as int]));
            return Err(ReorderError::Mismatch);
        }
        j = j + 1;
    }
    assert forall|k: Seq<char>| #[trigger] new.contains(k) <==> old_ids.contains(k) by {
        if old_ids.contains(k) {
            let m = old_ids.index_of(k);
            assert(new.contains(old_ids[m]));
        }
    }
    Ok(places)
}

/// The places of a gallery while it is reordered: all are made negative first,
/// then the first `k` of `ids` get their new ones, counted from 1.
pub open spec fn reordering(pages: Map<Seq<char>, int>, ids: Seq<Seq<char>>, k: int) -> Map<Seq<char>, int> {
    Map::new(
        |p: Seq<char>| pages.contains_key(p),
        |p: Seq<char>|
            if ids.take(k).contains(p) {
                ids.index_of(p) + 1
            } else {
                -pages[p]
            },
    )
}

/// At no point of a reordering are two photos at one place, and in the end they
/// are at the places 1, 2 and so on in the order asked for.
pub proof fn law_reordering_never_collides(pages: Map<Seq<char>, int>, ids: Seq<Seq<char>>, k: int)
    requires
        places_apart(pages),
        forall|p: Seq<char>| #[trigger] pages.contains_key(p) ==> pages[p] > 0,
        ids.no_duplicates(),
        forall|p: Seq<char>| #[trigger] ids.contains(p) <==> pages.contains_key(p),
        0 <= k <= ids.len(),
    ensures
        places_apart(reordering(pages, ids, k)),
        reordering(pages, ids, k).dom() == pages.dom(),
        k == ids.len() ==> forall|i: int|
            0 <= i < ids.len() ==> reordering(pages, ids, k)[#[trigger] ids[i]] == i + 1,
{
    let now = reordering(pages, ids, k);
    assert forall|a: Seq<char>, b: Seq<char>| #[trigger] now.contains_key(a) && #[trigger] now.contains_key(b) && a
        != b implies now[a] != now[b] by {
        assert(pages.contains_key(a) && pages.contains_key(b));
        assert(ids.contains(a) && ids.contains(b));
        let x = ids.index_of(a);
        let y = ids.index_of(b);
        assert(ids[x] == a && ids[y] == b);
    }
    assert(now.dom() =~= pages.dom());
    if k == ids.len() {
        assert(ids.take(k) =~= ids);
        assert forall|i: int| 0 <= i < ids.len() implies now[#[trigger] ids[i]] == i + 1 by {
            assert(ids.contains(ids[i]));
            assert(pages.contains_key(ids[i]));
            let x = ids.index_of(ids[i]);
            assert(ids[x] == ids[i]);
        }
    }
}

/// The texts of the queries for galleries. A summary counts the photos of its own
/// gallery and shows the first of them by place; the pages of a gallery are its
/// own photos by place.
pub proof fn law_gallery_queries()
    ensures
        SUMMARY_QUERY@
            == "SELECT g.id, g.title, g.description, g.created_at, COUNT(DISTINCT gp.photo_id), (SELECT photo_id FROM gallery_photos WHERE gallery_id = g.id ORDER BY position LIMIT 1) FROM galleries g LEFT JOIN gallery_photos gp ON gp.gallery_id = g.id"@,
        PAGES_QUERY@
            == "SELECT p.id, p.hash, p.original_filename, p.mime_type, p.media_type, p.file_size, p.width, p.height, p.duration_seconds, p.taken_at, p.created_at FROM photos p JOIN gallery_photos gp ON gp.photo_id = p.id WHERE gp.gallery_id = ? ORDER BY gp.position"@,
{
}

/// The list of galleries is asked for newest first, with or without tags. With
/// tags, each link is joined to its own gallery and its tag has to be among those
/// given, of which there is one placeholder each; nothing else differs. With no
/// tag nothing is asked for.
pub proof fn law_tags_narrow_the_list(n: nat)
    ensures
        list_text(Some(0)) is None,
        n > 0 ==> ({
            let head = SUMMARY_QUERY@;
            let tail = " GROUP BY g.id ORDER BY g.created_at DESC"@;
            let own_link = " JOIN gallery_tag_links gt ON gt.gallery_id = g.id"@;
            &&& list_text(None) == Some(head + tail)
            &&& list_text(Some(n)) == Some(
                head + own_link + " WHERE gt.tag_id IN ("@ + text::join_texts(
                    Seq::new(n, |i: int| seq!['?']),
                    seq![','],
                ) + ")"@ + tail,
            )
        }),
{
    sql::law_marks_are_joined_by_commas(n);
    reveal_strlit(" JOIN gallery_tag_links gt ON gt.gallery_id = g.id");
    reveal_strlit(" WHERE gt.tag_id IN (");
    reveal_strlit(" JOIN gallery_tag_links gt ON gt.gallery_id = g.id WHERE gt.tag_id IN (");
    reveal_strlit(")");
    reveal_strlit(" GROUP BY g.id ORDER BY g.created_at DESC");
    reveal_strlit(") GROUP BY g.id ORDER BY g.created_at DESC");
    assert(" JOIN gallery_tag_links gt ON gt.gallery_id = g.id WHERE gt.tag_id IN ("@
        =~= " JOIN gallery_tag_links gt ON gt.gallery_id = g.id"@ + " WHERE gt.tag_id IN ("@);
    assert(") GROUP BY g.id ORDER BY g.created_at DESC"@ =~= ")"@ + " GROUP BY g.id ORDER BY g.created_at DESC"@);
    if n > 0 {
        assert(list_text(Some(n))->0 =~= SUMMARY_QUERY@ + " JOIN gallery_tag_links gt ON gt.gallery_id = g.id"@
            + " WHERE gt.tag_id IN ("@ + sql::marks(n) + ")"@ + " GROUP BY g.id ORDER BY g.created_at DESC"@);
    }
}

/// A gallery of the list has what its row says, field by field, and the tags that
/// are listed for it.
pub proof fn law_summary_keeps_its_row(row: SummaryRow, tags: Seq<Seq<char>>, g: Gallery)
    requires
        is_summary(row, tags, g),
    ensures
        g.id == row.0 && g.title == row.1 && g.description == row.2,
        g.created_at == row.3 && g.photo_count == row.4 && g.cover_photo_id == row.5,
        text::texts(g.tags@) == tags,
{
}

/// The rows of a list are told apart by their identifiers, one for each.
pub proof fn law_summaries_have_their_ids(rows: Seq<SummaryRow>)
    ensures
        summary_ids(rows).len() == rows.len(),
        forall|i: int| 0 <= i < rows.len() ==> #[trigger] summary_ids(rows)[i] == rows[i].0@,
{
}

proof fn lemma_appended_places(pages: Map<Seq<char>, int>, order: Seq<Seq<char>>, ids: Seq<Seq<char>>, last: i64)
    requires
        forall|k: Seq<char>| #[trigger] order.contains(k) <==> pages.contains_key(k),
        last == i64::MAX ==> is_full(pages),
    ensures
        forall|i: int|
            0 <= i < with_room(fresh_ids(order, ids).len(), last) ==> appended(pages, ids, last)[#[trigger] fresh_ids(
                order,
                ids,
            )[i]] == last + 1 + i,
    decreases ids.len(),
{
    if ids.len() > 0 {
        let first = ids[0];
        let rest = ids.skip(1);
        let fresh = fresh_ids(order, ids);
        let after = appended(pages, ids, last);
        assert(ids =~= seq![first] + rest);
        lemma_fresh_front(order, first, rest);
        assert(order.contains(first) <==> pages.contains_key(first));
        if pages.contains_key(first) {
            lemma_appended_places(pages, order, rest, last);
        } else if last < i64::MAX {
            let next: i64 = (last + 1) as i64;
            let more = pages.insert(first, next as int);
            let longer = order.push(first);
            lemma_push_contains(order, first);
            assert(more.contains_key(first) && more[first] == next);
            lemma_appended_keeps(more, rest, next);
            lemma_appended_places(more, longer, rest, next);
            let behind = fresh_ids(longer, rest);
            assert(after == appended(more, rest, next));
            assert forall|i: int| 0 <= i < with_room(fresh.len(), last) implies after[#[trigger] fresh[i]] == last + 1
                + i by {
                if i > 0 {
                    assert(fresh[i] == behind[i - 1]);
                }
            }
        }
    }
}

/// Photos that are added take the places behind the last one without a gap: in
/// an empty gallery 1, 2, 3 and so on, and else those that follow the greatest
/// place.
pub proof fn law_added_photos_take_the_next_places(
    pages: Map<Seq<char>, int>,
    order: Seq<Seq<char>>,
    ids: Seq<Seq<char>>,
    max_position: Option<i64>,
    i: int,
)
    requires
        in_order(pages, order),
        is_greatest(pages, max_position),
        0 <= i < fresh_ids(order, ids).len(),
        max_position is Some ==> max_position->0 + 1 + i <= i64::MAX,
        max_position is None ==> 1 + i <= i64::MAX,
    ensures
        ({
            let after = appended(pages, ids, last_place(max_position));
            after[fresh_ids(order, ids)[i]] == (match max_position {
                Some(m) => m + 1 + i,
                None => 1 + i,
            })
        }),
{
    lemma_appended_places(pages, order, ids, last_place(max_position));
}

/// Those that are new are the ones not there yet, each once, in the order in
/// which they are first named.
pub proof fn law_new_photos_are_those_not_there(order: Seq<Seq<char>>, ids: Seq<Seq<char>>, k: Seq<char>)
    ensures
        fresh_ids(order, ids).contains(k) <==> ids.contains(k) && !order.contains(k),
        fresh_ids(order, ids).no_duplicates(),
    decreases ids.len(),
{
    if ids.len() > 0 {
        let front = ids.drop_last();
        let last = ids.last();
        law_new_photos_are_those_not_there(order, front, k);
        law_new_photos_are_those_not_there(order, front, last);
        let before = fresh_ids(order, front);
        lemma_push_contains(before, last);
        lemma_push_contains(front, last);
        assert(front.push(last) =~= ids);
        let all = fresh_ids(order, ids);
        assert forall|i: int, j: int| 0 <= i < all.len() && 0 <= j < all.len() && i != j implies all[i] != all[j] by {
            if i < before.len() && j < before.len() {
                assert(before[i] != before[j]);
            } else if i < before.len() {
                assert(before.contains(before[i]));
            } else if j < before.len() {
                assert(before.contains(before[j]));
            }
        }
    }
}

/// A list is an order of the photos of a gallery exactly if it holds each of them
/// once and nothing else.
pub proof fn law_order_is_a_permutation(ids: Seq<Seq<char>>, current: Seq<Seq<char>>)
    requires
        current.no_duplicates(),
    ensures
        is_order_of(ids, current) <==> ids.to_multiset() == current.to_multiset(),
{
    broadcast use vstd::seq_lib::group_to_multiset_ensures;

    current.lemma_multiset_has_no_duplicates();
    if is_order_of(ids, current) {
        ids.lemma_multiset_has_no_duplicates();
        assert forall|k: Seq<char>| ids.to_multiset().count(k) == current.to_multiset().count(k) by {
            assert(ids.contains(k) <==> current.contains(k));
            assert(ids.to_multiset().contains(k) <==> ids.contains(k));
            assert(current.to_multiset().contains(k) <==> current.contains(k));
        }
        assert(ids.to_multiset() =~= current.to_multiset());
    }
    if ids.to_multiset() == current.to_multiset() {
        ids.lemma_multiset_has_no_duplicates_conv();
        assert forall|k: Seq<char>| #[trigger] ids.contains(k) <==> current.contains(k) by {
            assert(ids.to_multiset().contains(k) <==> ids.contains(k));
            assert(current.to_multiset().contains(k) <==> current.contains(k));
        }
    }
}

/// New photos keep the order in which they are given, each at its first place.
pub proof fn law_new_photos_keep_their_order(order: Seq<Seq<char>>, a: Seq<Seq<char>>, id: Seq<char>, b: Seq<Seq<char>>)
    ensures
        fresh_ids(order, a + b) == fresh_ids(order, a) + fresh_ids(order + a, b),
        fresh_ids(order, seq![id]) == (if order.contains(id) {
            Seq::empty()
        } else {
            seq![id]
        }),
        fresh_ids(order, Seq::empty()).len() == 0,
    decreases b.len(),
{
    reveal_with_fuel(fresh_ids, 2);
    assert(seq![id].drop_last() =~= Seq::<Seq<char>>::empty());
    assert(Seq::<Seq<char>>::empty().push(id) =~= seq![id]);
    if b.len() == 0 {
        assert(a + b =~= a);
        assert(fresh_ids(order, a) + fresh_ids(order + a, b) =~= fresh_ids(order, a));
    } else {
        let x = b.last();
        let front = b.drop_last();
        assert((a + b).drop_last() =~= a + front);
        assert((a + b).last() == x);
        law_new_photos_keep_their_order(order, a, id, front);
        assert((order + a).contains(x) <==> order.contains(x) || a.contains(x)) by {
            if order.contains(x) {
                let k = order.index_of(x);
                assert((order + a)[k] == x);
            }
            if a.contains(x) {
                let k = a.index_of(x);
                assert((order + a)[order.len() + k] == x);
            }
        }
        assert((a + front).contains(x) <==> a.contains(x) || front.contains(x)) by {
            if a.contains(x) {
                let k = a.index_of(x);
                assert((a + front)[k] == x);
            }
            if front.contains(x) {
                let k = front.index_of(x);
                assert((a + front)[a.len() + k] == x);
            }
        }
        assert(fresh_ids(order, a + b) =~= fresh_ids(order, a) + fresh_ids(order + a, b));
    }
}

} // verus!
