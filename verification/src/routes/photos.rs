//! Routes for photos: uploads, lists, tags, deletion and imports.
use vstd::prelude::*;

use crate::error::AppError;
use crate::ingest;
use crate::ingest::{FileResult, ImportSummary, IngestOutcome};
use crate::listing;
use crate::media;
use crate::media::MediaType;
use crate::models;
use crate::models::{Photo, PhotoRow};
use crate::paths;
use crate::pattern;
use crate::rules;
use crate::rules::TagRule;
use crate::search;
use crate::search::{Expr, Query};
use crate::sql;
use crate::strmap::StrMap;
use crate::tags;
use crate::text;
use crate::textset;

verus! {

/// What a field of an upload form holds.
#[derive(Debug, Clone, Copy, PartialEq, Eq, Structural)]
pub enum FieldKind {
    File,
    Tag,
    Other,
}

/// What the field with this name holds.
pub fn field_kind(name: &str) -> (r: FieldKind)
    ensures
        r == (if name@ == "file"@ {
            FieldKind::File
        } else if name@ == "tags"@ {
            FieldKind::Tag
        } else {
            FieldKind::Other
        }),
{
    if text::same_text(name, "file") {
        FieldKind::File
    } else if text::same_text(name, "tags") {
        FieldKind::Tag
    } else {
        FieldKind::Other
    }
}

/// An upload form as far as it has been read.
#[derive(Debug)]
pub struct UploadForm {
    pub file_bytes: Option<Vec<u8>>,
    pub filename: Option<String>,
    pub content_type: Option<String>,
    pub tag_paths: Vec<String>,
}

/// An upload that can be taken in.
#[derive(Debug)]
pub struct Upload {
    pub bytes: Vec<u8>,
    pub filename: String,
    pub content_type: Option<String>,
    pub tag_paths: Vec<String>,
}

impl UploadForm {
    /// A form of which nothing has been read.
    pub fn new() -> (r: Self)
        ensures
            r.file_bytes is None && r.filename is None && r.content_type is None && r.tag_paths.len() == 0,
    {
        UploadForm { file_bytes: None, filename: None, content_type: None, tag_paths: Vec::new() }
    }

    /// Takes the field with the file. The last one counts.
    pub fn file(&mut self, filename: Option<String>, content_type: Option<String>, bytes: Vec<u8>)
        ensures
            final(self).file_bytes == Some(bytes),
            final(self).filename == filename,
            final(self).content_type == content_type,
            final(self).tag_paths == old(self).tag_paths,
    {
        self.filename = filename;
        self.content_type = content_type;
        self.file_bytes = Some(bytes);
    }

    /// Takes a field with a tag. A blank one does not count.
    pub fn tag(&mut self, value: String)
        ensures
            final(self).file_bytes == old(self).file_bytes,
            final(self).filename == old(self).filename,
            final(self).content_type == old(self).content_type,
            final(self).tag_paths@ == (if text::trimmed(value@).len() > 0 {
                old(self).tag_paths@.push(value)
            } else {
                old(self).tag_paths@
            }),
    {
        if text::trim(value.as_str()).unicode_len() > 0 {
            self.tag_paths.push(value);
        }
    }

    /// The upload that the whole form makes. A form without a file is refused; a
    /// file without a name is called `upload`.
    pub fn finish(self) -> (r: Result<Upload, AppError>)
        ensures
            match r {
                Ok(u) => {
                    &&& self.file_bytes == Some(u.bytes)
                    &&& u.content_type == self.content_type
                    &&& u.tag_paths == self.tag_paths
                    &&& match self.filename {
                        Some(name) => u.filename == name,
                        None => u.filename@ == "upload"@,
                    }
                },
                Err(e) => self.file_bytes is None && e.says(400, "missing file field"@),
            },
    {
        match self.file_bytes {
            Some(bytes) => {
                let filename = match self.filename {
                    Some(name) => name,
                    None => "upload".to_owned(),
                };
                Ok(Upload { bytes, filename, content_type: self.content_type, tag_paths: self.tag_paths })
            },
            None => Err(AppError::bad_request("missing file field")),
        }
    }
}

/// A request for a list of photos.
#[derive(Debug)]
pub struct ListQuery {
    /// Boolean search query over tags (AND/OR/NOT, `-tag` shorthand,
    /// parentheses for grouping — see `search::parse`). Missing or empty
    /// matches every photo.
    pub q: Option<String>,
    pub limit: Option<i64>,
    pub cursor: Option<String>,
    pub trash: bool,
}

/// A page of a list of photos.
#[derive(Debug)]
pub struct ListResponse {
    pub photos: Vec<Photo>,
    pub total: i64,
    pub limit: i64,
    pub next_cursor: Option<String>,
}

/// The number of photos on a page: as many as asked for, from 1 to 200, and 50
/// where nothing is said.
pub open spec fn limit_for(limit: Option<i64>) -> int {
    match limit {
        None => 50,
        Some(n) => if n < 1 {
            1
        } else if n > 200 {
            200
        } else {
            n as int
        },
    }
}

/// The number of photos on a page.
pub fn page_limit(limit: Option<i64>) -> (r: i64)
    ensures
        1 <= r <= 200,
        r == limit_for(limit),
{
    let n: i64 = match limit {
        Some(n) => n,
        None => 50,
    };
    if n < 1 {
        1
    } else if n > 200 {
        200
    } else {
        n
    }
}

/// The cursor behind the row with this time of creation and identifier.
pub open spec fn cursor_text(created_at: Seq<char>, id: Seq<char>) -> Seq<char> {
    created_at.push('|') + id
}

/// Cursors are opaque to clients: a `(created_at, id)` pair identifying the
/// last row of the previous page. Ordering by this pair (instead of a numeric
/// offset) keeps pagination stable even as new photos are inserted concurrently.
pub fn encode_cursor(created_at: &str, id: &str) -> (r: String)
    ensures
        r@ == cursor_text(created_at@, id@),
{
    let mut out = created_at.to_owned();
    out.push('|');
    out.append(id);
    out
}

/// The pair that a cursor stands for, split at its first bar.
pub open spec fn cursor_pair(cursor: Seq<char>) -> Option<(Seq<char>, Seq<char>)> {
    let k = text::first_at(cursor, '|');
    if k < cursor.len() {
        Some((cursor.take(k), cursor.skip(k + 1)))
    } else {
        None
    }
}

/// The `(created_at, id)` pair that a cursor stands for. A cursor without a bar
/// is refused.
pub fn decode_cursor(cursor: &str) -> (r: Result<(String, String), AppError>)
    ensures
        match r {
            Ok(p) => cursor_pair(cursor@) == Some((p.0@, p.1@)),
            Err(e) => cursor_pair(cursor@) is None && e.says(400, "invalid cursor"@),
        },
{
    let cs = text::chars_of(cursor);
    let k: usize = text::find_from(&cs, 0, '|');
    proof {
        assert(cs@.skip(0) =~= cursor@);
        text::lemma_first_at(cursor@, '|');
    }
    if k >= cs.len() {
        return Err(AppError::bad_request("invalid cursor"));
    }
    let created_at = text::string_of(&cs, 0, k);
    let id = text::string_of(&cs, k + 1, cs.len());
    assert(created_at@ =~= cursor@.take(k as int));
    assert(id@ =~= cursor@.skip(k + 1));
    Ok((created_at, id))
}

/// A cursor stands for the pair that it was made of, where the time of creation
/// holds no bar.
pub proof fn law_cursor_round_trip(created_at: Seq<char>, id: Seq<char>)
    requires
        !created_at.contains('|'),
    ensures
        cursor_pair(cursor_text(created_at, id)) == Some((created_at, id)),
{
    let c = cursor_text(created_at, id);
    let k = created_at.len() as int;
    assert(c[k] == '|');
    assert forall|i: int| 0 <= i < k implies c[i] != '|' by {
        assert(c[i] == created_at[i]);
        assert(created_at.contains(created_at[i]));
    }
    text::lemma_first_at_is(c, '|', k);
    assert(c.take(k) =~= created_at);
    assert(c.skip(k + 1) =~= id);
}

/// Which photos a request asks for.
#[derive(Debug)]
pub enum Selection {
    /// Those in the trash, whatever the search says.
    Trash,
    /// Those that the search matches.
    Search(Expr),
}

/// What a request for a list of photos asks for.
#[derive(Debug)]
pub struct ListPlan {
    pub limit: i64,
    pub cursor: Option<(String, String)>,
    pub selection: Selection,
}

/// Whether `cursor` is what the text of a cursor stands for, if there is one.
pub open spec fn is_cursor(given: Option<String>, cursor: Option<(String, String)>) -> bool {
    match (given, cursor) {
        (None, None) => true,
        (Some(c), Some(pair)) => cursor_pair(c@) == Some((pair.0@, pair.1@)),
        _ => false,
    }
}

impl ListQuery {
    /// Whether the cursor stands for nothing.
    pub open spec fn has_bad_cursor(&self) -> bool {
        self.cursor is Some && cursor_pair(self.cursor->0@) is None
    }

    /// What the search says, if the request is for one.
    pub open spec fn search(&self) -> Result<Query, Seq<char>> {
        search::parse_text(text_or(self.q, ""@))
    }

    /// What the request asks for. A bad cursor is refused before a bad search.
    /// The trash is asked for whatever the search says.
    pub fn plan(&self) -> (r: Result<ListPlan, AppError>)
        ensures
            match r {
                Ok(p) => {
                    &&& p.limit == limit_for(self.limit)
                    &&& is_cursor(self.cursor, p.cursor)
                    &&& match p.selection {
                        Selection::Trash => self.trash,
                        Selection::Search(e) => !self.trash && self.search() == Ok::<Query, Seq<char>>(e.query()),
                    }
                },
                Err(e) => if self.has_bad_cursor() {
                    e.says(400, "invalid cursor"@)
                } else {
                    !self.trash && self.search() is Err && e.says(400, self.search()->Err_0)
                },
            },
    {
        let cursor = match &self.cursor {
            None => None,
            Some(c) => match decode_cursor(c.as_str()) {
                Ok(pair) => Some(pair),
                Err(e) => {
                    return Err(e);
                },
            },
        };
        let limit: i64 = page_limit(self.limit);
        if self.trash {
            return Ok(ListPlan { limit, cursor, selection: Selection::Trash });
        }
        let q = string_or(&self.q, "");
        match search::parse(q.as_str()) {
            Ok(expr) => Ok(ListPlan { limit, cursor, selection: Selection::Search(expr) }),
            Err(message) => Err(AppError::bad_request(message.as_str())),
        }
    }
}

/// Which photos are listed: a condition on `p.id` with its bind values.
#[derive(Debug)]
pub struct Filter {
    pub condition: String,
    pub binds: Vec<i64>,
}

/// The condition on photos that carry the tag of the bind value.
pub open spec fn trash_condition() -> Seq<char> {
    "EXISTS (SELECT 1 FROM photo_tags pt_trash WHERE pt_trash.photo_id = p.id AND pt_trash.tag_id = ?)"@
}

/// Restricts the view to only trashed photos (tagged with the reserved `trash`
/// tag), used by the dedicated Trash tab for review/permanent-delete. If nothing
/// was ever trashed there is no such tag, and no photo.
pub fn trash_filter(trash_tag_id: Option<i64>) -> (r: Filter)
    ensures
        match trash_tag_id {
            Some(id) => r.condition@ == trash_condition() && r.binds@ == seq![id],
            None => r.condition@ == "0=1"@ && r.binds@ == Seq::<i64>::empty(),
        },
{
    match trash_tag_id {
        Some(id) => {
            let mut binds: Vec<i64> = Vec::new();
            binds.push(id);
            let condition =
                "EXISTS (SELECT 1 FROM photo_tags pt_trash WHERE pt_trash.photo_id = p.id AND pt_trash.tag_id = ?)".to_owned();
            Filter { condition, binds }
        },
        None => Filter { condition: "0=1".to_owned(), binds: Vec::new() },
    }
}

/// Restricts the view to the photos that a search matches, given the tags of
/// its terms.
pub fn search_filter(expr: &Expr, ids_by_term: &StrMap<Vec<i64>>) -> (r: Filter)
    ensures
        r.condition@ == search::cond_text(search::cond_of(expr.query(), ids_by_term@)),
        r.binds@ == search::binds_of(expr.query(), ids_by_term@),
{
    let (condition, binds) = search::build_sql(expr, ids_by_term);
    Filter { condition, binds }
}

/// The query for the number of photos that a condition holds of.
pub fn count_query(condition: &str) -> (r: String)
    ensures
        r@ == "SELECT COUNT(*) FROM photos p WHERE "@ + condition@,
{
    let mut out = "SELECT COUNT(*) FROM photos p WHERE ".to_owned();
    out.append(condition);
    out
}

/// The columns of a photo, each of the table `p`.
pub const P_COLUMNS: &'static str =
    "p.id, p.hash, p.original_filename, p.mime_type, p.media_type, p.file_size, p.width, p.height, p.duration_seconds, p.taken_at, p.created_at";

/// The query for a page of the photos that a condition holds of, newest first;
/// behind a cursor, to which the time of creation is bound twice and then the
/// identifier.
pub open spec fn page_text(condition: Seq<char>, behind_cursor: bool) -> Seq<char> {
    let filter = if behind_cursor {
        condition + " AND (created_at < ? OR (created_at = ? AND id < ?))"@
    } else {
        condition
    };
    "SELECT "@ + P_COLUMNS@ + " FROM photos p WHERE "@ + filter + " ORDER BY p.created_at DESC, p.id DESC LIMIT ?"@
}

/// The query for a page of the photos that a condition holds of.
pub fn page_query(condition: &str, behind_cursor: bool) -> (r: String)
    ensures
        r@ == page_text(condition@, behind_cursor),
{
    let mut out = "SELECT ".to_owned();
    out.append(P_COLUMNS);
    out.append(" FROM photos p WHERE ");
    let ghost head = out@;
    out.append(condition);
    if behind_cursor {
        out.append(" AND (created_at < ? OR (created_at = ? AND id < ?))");
        assert(out@ =~= head + (condition@ + " AND (created_at < ? OR (created_at = ? AND id < ?))"@));
    }
    out.append(" ORDER BY p.created_at DESC, p.id DESC LIMIT ?");
    out
}

/// What a list takes its rows from: the total, and one row more than fit on the
/// page, to tell whether there are more.
pub fn fetch_limit(limit: i64) -> (r: i64)
    requires
        limit < i64::MAX,
    ensures
        r == limit + 1,
{
    limit + 1
}

/// The cursor behind the first `limit` rows, if there are more.
pub open spec fn cursor_behind(rows: Seq<PhotoRow>, limit: int) -> Option<Seq<char>> {
    if rows.len() > limit && limit > 0 {
        Some(cursor_text(rows[limit - 1].created_at@, rows[limit - 1].id@))
    } else {
        None
    }
}

/// The rows of a page: at most `limit` of those that were fetched.
pub open spec fn page_of(rows: Seq<PhotoRow>, limit: int) -> Seq<PhotoRow> {
    if rows.len() > limit {
        rows.take(limit)
    } else {
        rows
    }
}

/// The rows of a page, and the cursor behind them if there are more: `rows` are
/// those that were fetched.
pub fn cut_page(rows: Vec<PhotoRow>, limit: i64) -> (r: (Vec<PhotoRow>, Option<String>))
    requires
        1 <= limit <= 200,
    ensures
        r.0@ == page_of(rows@, limit as int),
        text::opt_string(r.1) == cursor_behind(rows@, limit as int),
{
    let mut rows = rows;
    let n: usize = limit as usize;
    if rows.len() > n {
        rows.truncate(n);
        let last = &rows[n - 1];
        let cursor = encode_cursor(last.created_at.as_str(), last.id.as_str());
        (rows, Some(cursor))
    } else {
        (rows, None)
    }
}

/// The answer to a request for a list: `rows` are those of the page, `tags` the
/// tags that are listed for them.
pub fn list(
    rows: Vec<PhotoRow>,
    tags: &StrMap<Vec<String>>,
    total: i64,
    limit: i64,
    next_cursor: Option<String>,
) -> (r: ListResponse)
    ensures
        listing::are_photos(rows@, tags@, r.photos@),
        r.total == total,
        r.limit == limit,
        r.next_cursor == next_cursor,
{
    ListResponse { photos: listing::photos_from_rows(rows, tags), total, limit, next_cursor }
}

/// Whether a row comes behind a cursor, newest rows first.
pub open spec fn is_behind(row: PhotoRow, created_at: Seq<char>, id: Seq<char>) -> bool {
    text::text_lt(row.created_at@, created_at) || (row.created_at@ == created_at && text::text_lt(row.id@, id))
}

/// The rows behind a cursor, in their order.
pub open spec fn rows_behind(rows: Seq<PhotoRow>, created_at: Seq<char>, id: Seq<char>) -> Seq<PhotoRow>
    decreases rows.len(),
{
    if rows.len() == 0 {
        Seq::empty()
    } else if is_behind(rows.last(), created_at, id) {
        rows_behind(rows.drop_last(), created_at, id).push(rows.last())
    } else {
        rows_behind(rows.drop_last(), created_at, id)
    }
}

/// Whether each row comes behind those before it.
pub open spec fn newest_first(rows: Seq<PhotoRow>) -> bool {
    forall|i: int, j: int|
        0 <= i < j < rows.len() ==> is_behind(#[trigger] rows[j], (#[trigger] rows[i]).created_at@, rows[i].id@)
}

proof fn lemma_behind_irreflexive(a: PhotoRow, b: PhotoRow)
    requires
        is_behind(a, b.created_at@, b.id@),
    ensures
        !is_behind(b, a.created_at@, a.id@),
{
    text::lemma_lt_irreflexive(a.created_at@);
    text::lemma_lt_irreflexive(a.id@);
    if text::text_lt(a.created_at@, b.created_at@) && text::text_lt(b.created_at@, a.created_at@) {
        text::lemma_lt_transitive(a.created_at@, b.created_at@, a.created_at@);
    }
    if text::text_lt(a.id@, b.id@) && text::text_lt(b.id@, a.id@) {
        text::lemma_lt_transitive(a.id@, b.id@, a.id@);
    }
}

proof fn lemma_rows_behind(rows: Seq<PhotoRow>, k: int, n: int)
    requires
        newest_first(rows),
        0 < k <= rows.len(),
        0 <= n <= rows.len(),
    ensures
        rows_behind(rows.take(n), rows[k - 1].created_at@, rows[k - 1].id@) == (if n <= k {
            Seq::empty()
        } else {
            rows.subrange(k, n)
        }),
    decreases n,
{
    let c = rows[k - 1];
    if n > 0 {
        let part = rows.take(n);
        assert(part.drop_last() =~= rows.take(n - 1));
        assert(part.last() == rows[n - 1]);
        lemma_rows_behind(rows, k, n - 1);
        if n <= k {
            if n < k {
                lemma_behind_irreflexive(c, rows[n - 1]);
            } else {
                text::lemma_lt_irreflexive(c.created_at@);
                text::lemma_lt_irreflexive(c.id@);
            }
        } else {
            assert(is_behind(rows[n - 1], c.created_at@, c.id@));
            if n == k + 1 {
                assert(Seq::<PhotoRow>::empty().push(rows[n - 1]) =~= rows.subrange(k, n));
            } else {
                assert(rows.subrange(k, n - 1).push(rows[n - 1]) =~= rows.subrange(k, n));
            }
        }
    }
}

/// The next page goes on where a page ends: the rows behind the cursor of a page
/// are all those that were not on it or before it.
pub proof fn law_next_page_continues(rows: Seq<PhotoRow>, limit: int)
    requires
        newest_first(rows),
        0 < limit < rows.len(),
        !rows[limit - 1].created_at@.contains('|'),
    ensures
        cursor_behind(rows, limit) is Some,
        cursor_pair(cursor_behind(rows, limit)->0) == Some((rows[limit - 1].created_at@, rows[limit - 1].id@)),
        rows_behind(rows, rows[limit - 1].created_at@, rows[limit - 1].id@) == rows.skip(limit),
{
    law_cursor_round_trip(rows[limit - 1].created_at@, rows[limit - 1].id@);
    lemma_rows_behind(rows, limit, rows.len() as int);
    assert(rows.take(rows.len() as int) =~= rows);
    assert(rows.subrange(limit, rows.len() as int) =~= rows.skip(limit));
}

/// The rows that are fetched for a page: those behind the cursor, if there is
/// one, and one more than fit on the page.
pub open spec fn fetched(table: Seq<PhotoRow>, cursor: Option<Seq<char>>, limit: int) -> Seq<PhotoRow> {
    let rows = match cursor {
        None => table,
        Some(c) => match cursor_pair(c) {
            Some(pair) => rows_behind(table, pair.0, pair.1),
            None => Seq::empty(),
        },
    };
    if rows.len() > limit + 1 {
        rows.take(limit + 1)
    } else {
        rows
    }
}

/// The pages that are read one after the other, from a cursor to the page that
/// gives none: `tables` are the rows as they stand at each request.
pub open spec fn pages(tables: Seq<Seq<PhotoRow>>, cursor: Option<Seq<char>>, limit: int) -> Seq<Seq<PhotoRow>>
    decreases tables.len(),
{
    if tables.len() == 0 {
        Seq::empty()
    } else {
        let rows = fetched(tables[0], cursor, limit);
        let page = page_of(rows, limit);
        match cursor_behind(rows, limit) {
            None => seq![page],
            Some(c) => seq![page] + pages(tables.skip(1), Some(c), limit),
        }
    }
}

/// Whether `table` holds `rows`, newest first, and before them only newer rows.
pub open spec fn ends_with(table: Seq<PhotoRow>, rows: Seq<PhotoRow>) -> bool {
    &&& newest_first(table)
    &&& table.len() >= rows.len()
    &&& table.skip(table.len() - rows.len()) == rows
}

/// The cursor behind the first `m` rows; none at the start.
spec fn cursor_at(rows: Seq<PhotoRow>, m: int) -> Option<Seq<char>> {
    if m > 0 {
        Some(cursor_text(rows[m - 1].created_at@, rows[m - 1].id@))
    } else {
        None
    }
}

/// What is fetched behind the first `m` rows: those that are left, as far as they
/// are needed.
proof fn lemma_fetched(rows: Seq<PhotoRow>, m: int, table: Seq<PhotoRow>, limit: int)
    requires
        0 <= m <= rows.len(),
        m > 0 ==> !rows[m - 1].created_at@.contains('|'),
        ends_with(table, rows),
        m == 0 ==> table == rows,
    ensures
        fetched(table, cursor_at(rows, m), limit) == (if rows.len() - m > limit + 1 {
            rows.skip(m).take(limit + 1)
        } else {
            rows.skip(m)
        }),
{
    let left = rows.skip(m);
    if m == 0 {
        assert(left =~= rows);
    } else {
        let d = table.len() - rows.len();
        assert(table.skip(d)[m - 1] == table[d + m - 1]);
        law_cursor_round_trip(rows[m - 1].created_at@, rows[m - 1].id@);
        lemma_rows_behind(table, d + m, table.len() as int);
        assert(table.take(table.len() as int) =~= table);
        assert forall|i: int| 0 <= i < left.len() implies #[trigger] left[i] == table[d + m + i] by {
            assert(table.skip(d)[m + i] == table[d + m + i]);
        }
        if d + m < table.len() {
            assert(table.subrange(d + m, table.len() as int) =~= left);
        } else {
            assert(left =~= Seq::<PhotoRow>::empty());
        }
    }
}

/// Whether pages hold `rows`, one after the other, and each but the last is full.
spec fn are_pages(all: Seq<Seq<PhotoRow>>, rows: Seq<PhotoRow>, limit: int) -> bool {
    &&& all.len() > 0
    &&& all.flatten() == rows
    &&& forall|i: int| 0 <= i < all.len() - 1 ==> (#[trigger] all[i]).len() == limit
    &&& all.last().len() <= limit
}

/// A full page before other pages.
proof fn lemma_full_page(page: Seq<PhotoRow>, others: Seq<Seq<PhotoRow>>, rows: Seq<PhotoRow>, limit: int)
    requires
        page.len() == limit,
        are_pages(others, rows, limit),
    ensures
        are_pages(seq![page] + others, page + rows, limit),
{
    let all = seq![page] + others;
    assert(all.drop_first() =~= others);
    assert(all.first() == page);
    assert(all.last() == others.last());
    assert forall|i: int| 0 <= i < all.len() - 1 implies (#[trigger] all[i]).len() == limit by {
        if i > 0 {
            assert(all[i] == others[i - 1]);
        }
    }
}

/// What the pages hold that are read when the first `m` rows have been.
proof fn lemma_pages(rows: Seq<PhotoRow>, m: int, tables: Seq<Seq<PhotoRow>>, limit: int)
    requires
        0 < limit,
        0 <= m <= rows.len(),
        forall|i: int| 0 <= i < rows.len() ==> !(#[trigger] rows[i]).created_at@.contains('|'),
        forall|k: int| 0 <= k < tables.len() ==> ends_with(#[trigger] tables[k], rows),
        tables.len() > rows.len() - m,
        m == 0 ==> tables[0] == rows,
    ensures
        are_pages(pages(tables, cursor_at(rows, m), limit), rows.skip(m), limit),
    decreases rows.len() - m,
{
    assert(ends_with(tables[0], rows));
    lemma_fetched(rows, m, tables[0], limit);
    let left = rows.skip(m);
    let part = fetched(tables[0], cursor_at(rows, m), limit);
    let page = page_of(part, limit);
    if left.len() > limit {
        assert(page =~= left.take(limit));
        assert(part[limit - 1] == rows[m + limit - 1]);
        let rest = tables.skip(1);
        assert forall|k: int| 0 <= k < rest.len() implies ends_with(#[trigger] rest[k], rows) by {
            assert(rest[k] == tables[k + 1]);
        }
        lemma_pages(rows, m + limit, rest, limit);
        lemma_full_page(page, pages(rest, cursor_at(rows, m + limit), limit), rows.skip(m + limit), limit);
        assert(page + rows.skip(m + limit) =~= left);
    } else {
        seq![left].lemma_flatten_one_element();
    }
}

/// All pages together, read one after the other until a page gives no cursor,
/// hold every row exactly once, newest first, also if newer photos are added
/// meanwhile. Each page but the last is full.
pub proof fn law_pages_hold_every_row_once(
    rows: Seq<PhotoRow>,
    tables: Seq<Seq<PhotoRow>>,
    asked: Option<i64>,
)
    requires
        tables.len() > rows.len(),
        tables[0] == rows,
        forall|k: int| 0 <= k < tables.len() ==> ends_with(#[trigger] tables[k], rows),
        forall|i: int| 0 <= i < rows.len() ==> !(#[trigger] rows[i]).created_at@.contains('|'),
    ensures
        pages(tables, None, limit_for(asked)).len() > 0,
        pages(tables, None, limit_for(asked)).flatten() == rows,
        rows.no_duplicates(),
        forall|i: int|
            0 <= i < pages(tables, None, limit_for(asked)).len() - 1 ==> (#[trigger] pages(
                tables,
                None,
                limit_for(asked),
            )[i]).len() == limit_for(asked),
        pages(tables, None, limit_for(asked)).last().len() <= limit_for(asked),
{
    assert(ends_with(tables[0], rows));
    assert forall|i: int, j: int| 0 <= i < rows.len() && 0 <= j < rows.len() && i != j implies rows[i] != rows[j] by {
        if rows[i] == rows[j] {
            let (a, b) = if i < j {
                (i, j)
            } else {
                (j, i)
            };
            assert(is_behind(rows[b], rows[a].created_at@, rows[a].id@));
            lemma_behind_irreflexive(rows[b], rows[a]);
        }
    }
    lemma_pages(rows, 0, tables, limit_for(asked));
    assert(rows.skip(0) =~= rows);
}

/// A row that is inserted before a cursor changes nothing behind it.
pub proof fn law_pages_are_stable(rows: Seq<PhotoRow>, at: int, row: PhotoRow, created_at: Seq<char>, id: Seq<char>)
    requires
        0 <= at <= rows.len(),
        !is_behind(row, created_at, id),
    ensures
        rows_behind(rows.insert(at, row), created_at, id) == rows_behind(rows, created_at, id),
    decreases rows.len(),
{
    let more = rows.insert(at, row);
    if at == rows.len() {
        assert(more.drop_last() =~= rows);
    } else {
        assert(more.drop_last() =~= rows.drop_last().insert(at, row));
        assert(more.last() == rows.last());
        law_pages_are_stable(rows.drop_last(), at, row, created_at, id);
    }
}

/// Checks that a photo may be permanently deleted, by its tags. Only allowed
/// once a photo has already been moved to trash, so this can't be triggered
/// as a direct, un-recoverable action from the main library view.
pub fn delete_permanently(photo_tags: &Vec<String>) -> (r: Result<(), AppError>)
    ensures
        r is Ok <==> text::texts(photo_tags@).contains(tags::TRASH_TAG@),
        r matches Err(e) ==> e.says(400, "photo must be moved to trash before it can be permanently deleted"@),
{
    if text::holds(photo_tags, tags::TRASH_TAG) {
        Ok(())
    } else {
        Err(AppError::bad_request("photo must be moved to trash before it can be permanently deleted"))
    }
}

/// A request to delete many photos, as far as it has been checked. Nothing is
/// deleted before all of it has been.
#[derive(Debug)]
pub struct BulkDelete {
    /// The hash and the extension of each photo that may be deleted.
    pub to_delete: Vec<(String, String)>,
}

impl BulkDelete {
    /// A request of which nothing has been checked.
    pub fn new() -> (r: Self)
        ensures
            r.to_delete.len() == 0,
    {
        BulkDelete { to_delete: Vec::new() }
    }

    /// The hash and the extension of the photo `id`. A request that names a photo
    /// which does not exist is refused.
    pub fn find(id: &str, row: Option<(String, String)>) -> (r: Result<(String, String), AppError>)
        ensures
            match row {
                Some(p) => r == Ok::<(String, String), AppError>(p),
                None => r is Err && r->Err_0.says(404, "photo not found: "@ + id@),
            },
    {
        match row {
            Some(p) => Ok(p),
            None => {
                let mut message = "photo not found: ".to_owned();
                message.append(id);
                Err(AppError::not_found(message.as_str()))
            },
        }
    }

    /// Takes a photo with its tags. A request with a photo that is not in the
    /// trash is refused as a whole.
    pub fn accept(&mut self, row: (String, String), photo_tags: &Vec<String>) -> (r: Result<(), AppError>)
        ensures
            match r {
                Ok(_) => {
                    &&& text::texts(photo_tags@).contains(tags::TRASH_TAG@)
                    &&& final(self).to_delete@ == old(self).to_delete@.push(row)
                },
                Err(e) => {
                    &&& !text::texts(photo_tags@).contains(tags::TRASH_TAG@)
                    &&& *final(self) == *old(self)
                    &&& e.says(400, "all photos must be moved to trash before they can be permanently deleted"@)
                },
            },
            forall|lists: Seq<Seq<Seq<char>>>|
                accepts_all(lists) ==> (r is Ok <==> #[trigger] accepts_all(lists.push(text::texts(photo_tags@)))),
    {
        assert forall|lists: Seq<Seq<Seq<char>>>| accepts_all(lists) implies (text::texts(photo_tags@).contains(
            tags::TRASH_TAG@,
        ) <==> #[trigger] accepts_all(lists.push(text::texts(photo_tags@)))) by {
            assert(lists.push(text::texts(photo_tags@)).drop_last() =~= lists);
        }
        if !text::holds(photo_tags, tags::TRASH_TAG) {
            return Err(
                AppError::bad_request("all photos must be moved to trash before they can be permanently deleted"),
            );
        }
        self.to_delete.push(row);
        Ok(())
    }
}

/// Whether a request is accepted, from the tags of its photos: each photo is
/// taken in turn, and one that is not in the trash ends it.
pub open spec fn accepts_all(tag_lists: Seq<Seq<Seq<char>>>) -> bool
    decreases tag_lists.len(),
{
    tag_lists.len() == 0 || (accepts_all(tag_lists.drop_last()) && tag_lists.last().contains(tags::TRASH_TAG@))
}

/// A request to delete many photos is accepted exactly if every one of them is
/// in the trash.
pub proof fn law_bulk_delete_is_all_or_nothing(tag_lists: Seq<Seq<Seq<char>>>)
    ensures
        accepts_all(tag_lists) <==> forall|i: int|
            0 <= i < tag_lists.len() ==> (#[trigger] tag_lists[i]).contains(tags::TRASH_TAG@),
    decreases tag_lists.len(),
{
    if tag_lists.len() > 0 {
        let front = tag_lists.drop_last();
        law_bulk_delete_is_all_or_nothing(front);
        if accepts_all(tag_lists) {
            assert forall|i: int| 0 <= i < tag_lists.len() implies (#[trigger] tag_lists[i]).contains(
                tags::TRASH_TAG@,
            ) by {
                if i < front.len() {
                    assert(front[i] == tag_lists[i]);
                }
            }
        } else if forall|i: int|
            0 <= i < tag_lists.len() ==> (#[trigger] tag_lists[i]).contains(tags::TRASH_TAG@) {
            assert forall|i: int| 0 <= i < front.len() implies (#[trigger] front[i]).contains(tags::TRASH_TAG@) by {
                assert(front[i] == tag_lists[i]);
            }
            assert(tag_lists[tag_lists.len() - 1].contains(tags::TRASH_TAG@));
        }
    }
}

/// A request for a thumbnail.
#[derive(Debug)]
pub struct ThumbQuery {
    pub size: Option<String>,
}

/// The size of the thumbnail that is asked for: the medium one if it is named,
/// else the small one.
pub fn thumbnail_size(q: &ThumbQuery) -> (r: &'static str)
    ensures
        r@ == (if q.size is Some && q.size->0@ == "md"@ {
            "md"@
        } else {
            "sm"@
        }),
{
    match &q.size {
        Some(size) => {
            if text::same_text(size.as_str(), "md") {
                "md"
            } else {
                "sm"
            }
        },
        None => "sm",
    }
}

/// The kind of media that is stored under a name.
pub fn stored_media_type(name: &str) -> (r: MediaType)
    ensures
        r == (if name@ == "video"@ {
            MediaType::Video
        } else {
            MediaType::Image
        }),
{
    if text::same_text(name, "video") {
        MediaType::Video
    } else {
        MediaType::Image
    }
}

/// The kind of media is read back as it was stored.
pub proof fn law_media_type_round_trip(kind: MediaType)
    ensures
        kind.name() == "video"@ <==> kind == MediaType::Video,
{
    reveal_strlit("video");
    reveal_strlit("image");
    assert("video"@[0] != "image"@[0]);
}

/// A request to add or remove tags.
#[derive(Debug)]
pub struct TagsBody {
    pub tags: Vec<String>,
}

/// A request to add or remove tags of many photos.
#[derive(Debug)]
pub struct BulkTagsBody {
    pub photo_ids: Vec<String>,
    pub tags: Vec<String>,
}

/// A request to delete many photos.
#[derive(Debug)]
pub struct BulkDeleteBody {
    pub photo_ids: Vec<String>,
}

/// The query for `n` photos by their identifiers; none if there is nothing to
/// ask for.
pub fn photos_query(n: usize) -> (r: Option<String>)
    ensures
        r is None <==> n == 0,
        r matches Some(q) ==> q@ == "SELECT "@ + models::PHOTO_COLUMNS@ + " FROM photos WHERE id IN ("@ + sql::marks(
            n as nat,
        ) + ")"@,
{
    if n == 0 {
        return None;
    }
    let mut out = "SELECT ".to_owned();
    out.append(models::PHOTO_COLUMNS);
    out.append(" FROM photos WHERE id IN (");
    let marks = sql::placeholders(n);
    out.append(marks.as_str());
    out.append(")");
    Some(out)
}

/// A pattern and a template for a [`TagRule`].
#[derive(Debug)]
pub struct TagRuleSpec {
    pub pattern: String,
    pub template: String,
}

/// A request to import files from the server's own filesystem.
#[derive(Debug)]
pub struct ImportPathBody {
    /// Absolute path on the server's filesystem to scan; may be a single
    /// file or a directory.
    pub path: String,
    pub recursive: bool,
    /// Fixed tags applied to every imported file.
    pub tags: Vec<String>,
    /// Regex/template pairs matched against each file's full path to derive
    /// additional tags — see `TagRule`.
    pub tag_rules: Vec<TagRuleSpec>,
    pub lowercase_tags: bool,
    /// When true, computes and returns tags/status without touching disk or
    /// the database.
    pub dry_run: bool,
}

/// Whether an import goes into directories where the request does not say.
pub fn default_true() -> (r: bool)
    ensures
        r,
{
    true
}

/// Checks the path of an import, which has to be absolute.
pub fn check_import_root(path: &str) -> (r: Result<(), AppError>)
    ensures
        r is Ok <==> paths::rooted(path@),
        r matches Err(e) ==> e.says(400, "path must be an absolute filesystem path on the server"@),
{
    if paths::is_absolute(path) {
        Ok(())
    } else {
        Err(AppError::bad_request("path must be an absolute filesystem path on the server"))
    }
}

/// What is answered when the path of an import cannot be reached.
pub fn import_root_error(path: &str, cause: &str) -> (r: AppError)
    ensures
        r.says(400, "cannot access path "@ + path@ + ": "@ + cause@),
{
    let mut message = "cannot access path ".to_owned();
    message.append(path);
    message.append(": ");
    message.append(cause);
    AppError::bad_request(message.as_str())
}

/// The index of the first outcome that is no rule, or the number of outcomes.
pub open spec fn first_failure(outcomes: Seq<Result<TagRule, String>>) -> int
    decreases outcomes.len(),
{
    if outcomes.len() == 0 || outcomes[0] is Err {
        0
    } else {
        1 + first_failure(outcomes.skip(1))
    }
}

proof fn lemma_first_failure(outcomes: Seq<Result<TagRule, String>>, k: int)
    requires
        0 <= k <= outcomes.len(),
        forall|i: int| 0 <= i < k ==> (#[trigger] outcomes[i]) is Ok,
        k == outcomes.len() || outcomes[k] is Err,
    ensures
        first_failure(outcomes) == k,
    decreases k,
{
    if k > 0 {
        let rest = outcomes.skip(1);
        assert(outcomes[0] is Ok);
        assert forall|i: int| 0 <= i < k - 1 implies (#[trigger] rest[i]) is Ok by {
            assert(rest[i] == outcomes[i + 1]);
        }
        lemma_first_failure(rest, k - 1);
    }
}

/// Whether `r` holds all rules of `outcomes`, in their order, if none failed, and
/// is else the error of the first that did.
pub open spec fn are_collected(
    outcomes: Seq<Result<TagRule, String>>,
    r: Result<Vec<TagRule>, AppError>,
) -> bool {
    let k = first_failure(outcomes);
    match r {
        Ok(rs) => {
            &&& k == outcomes.len()
            &&& rs.len() == outcomes.len()
            &&& forall|i: int| 0 <= i < rs.len() ==> outcomes[i] == Ok::<TagRule, String>(#[trigger] rs@[i])
        },
        Err(e) => {
            &&& 0 <= k < outcomes.len()
            &&& outcomes[k] is Err
            &&& e.says(400, rule_error_text(outcomes[k]->Err_0@))
        },
    }
}

/// The rules that were made of the patterns of an import, in their order. If one
/// cannot be used, the first such makes the request a bad one.
pub fn collect_rules(outcomes: Vec<Result<TagRule, String>>) -> (r: Result<Vec<TagRule>, AppError>)
    ensures
        are_collected(outcomes@, r),
{
    let ghost all = outcomes@;
    let mut left = outcomes;
    let mut out: Vec<TagRule> = Vec::new();
    while left.len() > 0
        invariant
            all == outcomes@,
            left@ == all.skip(out.len() as int),
            out.len() <= all.len(),
            forall|i: int| 0 <= i < out.len() ==> all[i] == Ok::<TagRule, String>(#[trigger] out@[i]),
        decreases left.len(),
    {
        let ghost done = out.len() as int;
        let next = left.remove(0);
        assert(next == all[done]);
        match next {
            Ok(rule) => {
                out.push(rule);
            },
            Err(cause) => {
                proof {
                    assert forall|i: int| 0 <= i < done implies (#[trigger] all[i]) is Ok by {
                        assert(all[i] == Ok::<TagRule, String>(out@[i]));
                    }
                    lemma_first_failure(all, done);
                }
                return Err(rule_error(cause.as_str()));
            },
        }
        assert(left@ =~= all.skip(out.len() as int));
    }
    proof {
        assert forall|i: int| 0 <= i < all.len() implies (#[trigger] all[i]) is Ok by {
            assert(all[i] == Ok::<TagRule, String>(out@[i]));
        }
        lemma_first_failure(all, all.len() as int);
    }
    Ok(out)
}

/// Whether `outcomes` are what became of making the rules of `specs`: each rule
/// that was made has its pattern and its template.
pub open spec fn are_outcomes(specs: Seq<TagRuleSpec>, outcomes: Seq<Result<TagRule, String>>) -> bool {
    &&& outcomes.len() == specs.len()
    &&& forall|i: int|
        0 <= i < outcomes.len() ==> ((#[trigger] outcomes[i]) matches Ok(rule) ==> rule.pattern() == specs[i].pattern@
            && rule.template() == specs[i].template@)
}

/// The rules of an import. A pattern that cannot be used makes the request a bad
/// one. Whether a pattern can be used shows when it is compiled.
pub fn compile_rules(specs: &Vec<TagRuleSpec>) -> (r: Result<Vec<TagRule>, AppError>)
    ensures
        exists|outcomes: Seq<Result<TagRule, String>>| #[trigger]
            are_outcomes(specs@, outcomes) && are_collected(outcomes, r),
        match r {
            Ok(rs) => {
                &&& rs.len() == specs.len()
                &&& forall|i: int|
                    0 <= i < rs.len() ==> (#[trigger] rs@[i]).pattern() == specs@[i].pattern@ && rs@[i].template()
                        == specs@[i].template@
            },
            Err(e) => specs.len() > 0 && exists|cause: Seq<char>| e.says(400, #[trigger] rule_error_text(cause)),
        },
{
    let mut outcomes: Vec<Result<TagRule, String>> = Vec::new();
    let mut i: usize = 0;
    while i < specs.len()
        invariant
            i <= specs.len(),
            outcomes.len() == i,
            forall|j: int|
                0 <= j < i ==> ((#[trigger] outcomes@[j]) matches Ok(rule) ==> rule.pattern() == specs@[j].pattern@
                    && rule.template() == specs@[j].template@),
        decreases specs.len() - i,
    {
        outcomes.push(TagRule::new(specs[i].pattern.as_str(), specs[i].template.as_str()));
        i = i + 1;
    }
    let ghost all = outcomes@;
    let r = collect_rules(outcomes);
    assert(are_outcomes(specs@, all) && are_collected(all, r));
    proof {
        if r is Ok {
            let rs = r->Ok_0;
            assert forall|j: int| 0 <= j < rs.len() implies (#[trigger] rs@[j]).pattern() == specs@[j].pattern@
                && rs@[j].template() == specs@[j].template@ by {
                assert(all[j] == Ok::<TagRule, String>(rs@[j]));
            }
        }
    }
    r
}

/// What is answered when a pattern cannot be used.
pub open spec fn rule_error_text(cause: Seq<char>) -> Seq<char> {
    "invalid tag-rule regex: "@ + cause
}

/// What is answered when a pattern cannot be used.
pub fn rule_error(cause: &str) -> (r: AppError)
    ensures
        r.says(400, rule_error_text(cause@)),
{
    let mut message = "invalid tag-rule regex: ".to_owned();
    message.append(cause);
    AppError::bad_request(message.as_str())
}

/// A file that was found below the path of an import. What of its path is no
/// text is left out.
#[derive(Debug)]
pub struct ScannedFile {
    pub path: String,
    pub name: Option<String>,
    pub stem: Option<String>,
    pub parent: Option<String>,
    pub extension: Option<String>,
}

fn owned(s: Option<&str>) -> (r: Option<String>)
    ensures
        text::opt_string(r) == text::opt_text(s),
{
    match s {
        Some(t) => Some(t.to_owned()),
        None => None,
    }
}

/// A text, or another where there is none.
pub open spec fn text_or(o: Option<String>, other: Seq<char>) -> Seq<char> {
    match o {
        Some(s) => s@,
        None => other,
    }
}

fn string_or(o: &Option<String>, other: &str) -> (r: String)
    ensures
        r@ == text_or(*o, other@),
{
    match o {
        Some(s) => s.clone(),
        None => other.to_owned(),
    }
}

impl ScannedFile {
    /// The file at a path that is a text.
    pub fn at(path: &str) -> (r: Self)
        ensures
            r.path@ == path@,
            text::opt_string(r.name) == paths::last_name(paths::components(path@)),
            text::opt_string(r.stem) == paths::path_stem(path@),
            text::opt_string(r.parent) == paths::parent_name(path@),
            text::opt_string(r.extension) == paths::path_extension(path@),
            is_file_at(r, path@),
    {
        ScannedFile {
            path: path.to_owned(),
            name: owned(paths::file_name(path)),
            stem: owned(paths::file_stem(path)),
            parent: owned(paths::parent_file_name(path)),
            extension: owned(paths::extension(path)),
        }
    }

    /// The MIME type that the extension of the file stands for.
    pub open spec fn mime(&self) -> Option<Seq<char>> {
        match self.extension {
            Some(ext) => media::mime_of_extension(ext@),
            None => None,
        }
    }

    /// Whether the file is imported: it is if its extension stands for an image
    /// or a video.
    pub fn is_media(&self) -> (r: bool)
        ensures
            r == is_media_mime(self.mime()),
    {
        let mime = match &self.extension {
            Some(ext) => media::guess_mime(ext.as_str()),
            None => None,
        };
        has_media_type(&mime)
    }

    /// The name under which the file is imported.
    pub fn filename(&self) -> (r: String)
        ensures
            r@ == text_or(self.name, "upload"@),
    {
        string_or(&self.name, "upload")
    }

    /// The tag that a rule gives for the file.
    pub open spec fn given(&self, rule: TagRule) -> Option<Seq<char>> {
        rules::tag_for(
            rule.template(),
            pattern::group_names(rule.pattern()),
            pattern::match_groups(rule.pattern(), self.path@),
            text_or(self.name, "upload"@),
            text_or(self.stem, ""@),
            text_or(self.parent, ""@),
        )
    }

    /// What the rules give for the file, one after the other.
    pub open spec fn given_by(&self, rules: Seq<TagRule>) -> Seq<Option<Seq<char>>> {
        rules.map_values(|rule: TagRule| self.given(rule))
    }

    /// What the rules give for the file, one after the other.
    pub fn rule_tags(&self, rules: &Vec<TagRule>) -> (r: Vec<Option<String>>)
        ensures
            pattern::opt_texts(r@) == self.given_by(rules@),
    {
        let filename = self.filename();
        let stem = string_or(&self.stem, "");
        let parent = string_or(&self.parent, "");
        let mut out: Vec<Option<String>> = Vec::new();
        let mut i: usize = 0;
        while i < rules.len()
            invariant
                i <= rules.len(),
                out.len() == i,
                filename@ == text_or(self.name, "upload"@),
                stem@ == text_or(self.stem, ""@),
                parent@ == text_or(self.parent, ""@),
                forall|j: int| 0 <= j < i ==> text::opt_string(#[trigger] out@[j]) == self.given(rules@[j]),
            decreases rules.len() - i,
        {
            out.push(rules[i].apply(self.path.as_str(), filename.as_str(), stem.as_str(), parent.as_str()));
            i = i + 1;
        }
        assert(pattern::opt_texts(out@) =~= self.given_by(rules@)) by {
            assert forall|j: int| 0 <= j < out.len() implies #[trigger] pattern::opt_texts(out@)[j]
                == self.given_by(rules@)[j] by {
                assert(text::opt_string(out@[j]) == self.given(rules@[j]));
            }
        }
        out
    }

    /// The field that the template of a rule names and the file does not have,
    /// though its path matches the pattern.
    pub open spec fn lacks(&self, rule: TagRule) -> Option<Seq<char>> {
        rules::missing_for(
            rule.template(),
            pattern::group_names(rule.pattern()),
            pattern::match_groups(rule.pattern(), self.path@),
            text_or(self.name, "upload"@),
            text_or(self.stem, ""@),
            text_or(self.parent, ""@),
        )
    }

    /// The field that a rule misses in the file, if any, for a warning.
    pub fn missing_field(&self, rule: &TagRule) -> (r: Option<String>)
        ensures
            text::opt_string(r) == self.lacks(*rule),
    {
        let filename = self.filename();
        let stem = string_or(&self.stem, "");
        let parent = string_or(&self.parent, "");
        rule.missing_field(self.path.as_str(), filename.as_str(), stem.as_str(), parent.as_str())
    }

    /// How the file is imported, with the fixed tags and the rules of the import;
    /// not at all if it is neither an image nor a video.
    pub fn plan(&self, fixed: &Vec<String>, rules: &Vec<TagRule>, lowercase: bool) -> (r: Option<ImportPlan>)
        ensures
            match r {
                None => !is_media_mime(self.mime()),
                Some(p) => {
                    &&& is_media_mime(self.mime())
                    &&& p.path@ == self.path@
                    &&& p.filename@ == text_or(self.name, "upload"@)
                    &&& text::texts(p.tags@) == lowered(
                        import_tags(text::texts(fixed@), self.given_by(rules@)),
                        lowercase,
                    )
                },
            },
    {
        if !self.is_media() {
            return None;
        }
        let given = self.rule_tags(rules);
        let tags = tags_for_import(fixed, &given, lowercase);
        Some(ImportPlan { path: self.path.clone(), filename: self.filename(), tags })
    }
}

/// How a file is imported.
#[derive(Debug)]
pub struct ImportPlan {
    pub path: String,
    pub filename: String,
    pub tags: Vec<String>,
}

/// Whether a MIME type is that of an image or a video.
pub open spec fn is_media_mime(mime: Option<Seq<char>>) -> bool {
    mime is Some && MediaType::of_mime(mime->0) is Some
}

/// Whether a guessed MIME type is that of an image or a video.
pub fn has_media_type(mime: &Option<String>) -> (r: bool)
    ensures
        r == is_media_mime(text::opt_string(*mime)),
{
    match mime {
        Some(m) => MediaType::from_mime(m.as_str()).is_some(),
        None => false,
    }
}

/// What is left of the fixed tags: each without the white space around it.
pub open spec fn fixed_texts(fixed: Seq<Seq<char>>) -> Seq<Seq<char>> {
    fixed.map_values(|t: Seq<char>| text::trimmed(t))
}

/// What is left of the tags that rules gave: each without white space and then
/// without slashes around it, as far as anything is left.
pub open spec fn rule_texts(given: Seq<Option<Seq<char>>>) -> Seq<Seq<char>>
    decreases given.len(),
{
    if given.len() == 0 {
        Seq::empty()
    } else {
        let before = rule_texts(given.drop_last());
        match given.last() {
            Some(t) => if text::trimmed_of(text::trimmed(t), '/').len() > 0 {
                before.push(text::trimmed_of(text::trimmed(t), '/'))
            } else {
                before
            },
            None => before,
        }
    }
}

/// The list without the empty text at its front.
pub open spec fn without_empty(s: Seq<Seq<char>>) -> Seq<Seq<char>> {
    if s.len() > 0 && s[0].len() == 0 {
        s.skip(1)
    } else {
        s
    }
}

/// The tags of an imported file, each once and in order: the fixed ones and
/// those that the rules gave, without the empty ones.
pub open spec fn import_tags(fixed: Seq<Seq<char>>, given: Seq<Option<Seq<char>>>) -> Seq<Seq<char>> {
    without_empty(textset::set_of(fixed_texts(fixed) + rule_texts(given)))
}

/// Texts in lowercase, if asked for.
pub open spec fn lowered(s: Seq<Seq<char>>, lowercase: bool) -> Seq<Seq<char>> {
    if lowercase {
        s.map_values(|t: Seq<char>| text::lowercase_of(t))
    } else {
        s
    }
}

/// The tags of an imported file, from the fixed tags of the import and from what
/// the rules gave for the file.
pub fn tags_for_import(fixed: &Vec<String>, given: &Vec<Option<String>>, lowercase: bool) -> (r: Vec<String>)
    ensures
        text::texts(r@) == lowered(import_tags(text::texts(fixed@), pattern::opt_texts(given@)), lowercase),
{
    let ghost fs = fixed_texts(text::texts(fixed@));
    let ghost gs = pattern::opt_texts(given@);
    let mut set: Vec<String> = Vec::new();
    let mut i: usize = 0;
    assert(text::texts(set@) =~= textset::set_of(fs.take(0)));
    while i < fixed.len()
        invariant
            i <= fixed.len(),
            fs == fixed_texts(text::texts(fixed@)),
            textset::ascending(text::texts(set@)),
            text::texts(set@) == textset::set_of(fs.take(i as int)),
        decreases fixed.len() - i,
    {
        let t = text::trim(fixed[i].as_str());
        assert(fs.take(i + 1).drop_last() =~= fs.take(i as int));
        assert(text::texts(fixed@)[i as int] == fixed@[i as int]@);
        assert(fs.take(i + 1).last() == t@);
        textset::add_text(&mut set, t.to_owned());
        i = i + 1;
    }
    assert(fs.take(i as int) =~= fs);
    let mut j: usize = 0;
    assert(fs + rule_texts(gs.take(0)) =~= fs);
    while j < given.len()
        invariant
            j <= given.len(),
            gs == pattern::opt_texts(given@),
            textset::ascending(text::texts(set@)),
            text::texts(set@) == textset::set_of(fs + rule_texts(gs.take(j as int))),
        decreases given.len() - j,
    {
        proof {
            assert(gs.take(j + 1).drop_last() =~= gs.take(j as int));
            assert(gs.take(j + 1).last() == (match given@[j as int] {
                Some(s) => Some(s@),
                None => None,
            }));
        }
        if let Some(tag) = &given[j] {
            let t = text::trim_char(text::trim(tag.as_str()), '/');
            if t.unicode_len() > 0 {
                proof {
                    let before = fs + rule_texts(gs.take(j as int));
                    let after = fs + rule_texts(gs.take(j + 1));
                    assert(after =~= before.push(t@));
                    assert(after.drop_last() =~= before);
                }
                textset::add_text(&mut set, t.to_owned());
            }
        }
        j = j + 1;
    }
    assert(gs.take(j as int) =~= gs);
    if set.len() > 0 && set[0].as_str().is_empty() {
        proof {
            reveal_strlit("");
        }
        let ghost was = text::texts(set@);
        assert(was[0] == set@[0]@);
        let _dropped = set.remove(0);
        assert(text::texts(set@) =~= was.skip(1));
    } else {
        assert(set.len() > 0 ==> text::texts(set@)[0] == set@[0]@);
    }
    let ghost listed = text::texts(set@);
    if !lowercase {
        return set;
    }
    let mut out: Vec<String> = Vec::new();
    let mut k: usize = 0;
    while k < set.len()
        invariant
            k <= set.len(),
            listed == text::texts(set@),
            out.len() == k,
            forall|m: int| 0 <= m < k ==> (#[trigger] out@[m])@ == text::lowercase_of(set@[m]@),
        decreases set.len() - k,
    {
        out.push(text::lowercase(set[k].as_str()));
        k = k + 1;
    }
    assert(text::texts(out@) =~= lowered(listed, true));
    out
}

proof fn lemma_empty_is_least(t: Seq<char>)
    ensures
        t.len() == 0 ==> forall|u: Seq<char>| !text::text_lt(u, t),
{
}

/// The tags of an imported file, before they are put in lowercase, are in
/// order, none of them twice, none of them empty: the fixed tags without white
/// space around them, and the tags that the rules gave without white space and
/// slashes around them.
pub proof fn law_import_tags(fixed: Seq<Seq<char>>, given: Seq<Option<Seq<char>>>)
    ensures
        textset::ascending(import_tags(fixed, given)),
        import_tags(fixed, given).no_duplicates(),
        forall|t: Seq<char>| #[trigger]
            import_tags(fixed, given).contains(t) <==> t.len() > 0 && (fixed_texts(fixed).contains(t) || rule_texts(
                given,
            ).contains(t)),
{
    let all = fixed_texts(fixed) + rule_texts(given);
    let s = textset::set_of(all);
    let r = import_tags(fixed, given);
    textset::law_set_is_ascending(all);
    assert forall|t: Seq<char>| #[trigger] all.contains(t) <==> fixed_texts(fixed).contains(t) || rule_texts(
        given,
    ).contains(t) by {
        let n = fixed_texts(fixed).len() as int;
        if fixed_texts(fixed).contains(t) {
            assert(all[fixed_texts(fixed).index_of(t)] == t);
        }
        if rule_texts(given).contains(t) {
            assert(all[n + rule_texts(given).index_of(t)] == t);
        }
        if all.contains(t) {
            let m = all.index_of(t);
            if m < n {
                assert(fixed_texts(fixed)[m] == t);
            } else {
                assert(rule_texts(given)[m - n] == t);
            }
        }
    }
    assert forall|k: int| 0 < k < s.len() implies (#[trigger] s[k]).len() > 0 by {
        assert(text::text_lt(s[0], s[k]));
        lemma_empty_is_least(s[k]);
    }
    let off: int = if s.len() > 0 && s[0].len() == 0 {
        1
    } else {
        0
    };
    assert forall|k: int| 0 <= k < r.len() implies #[trigger] r[k] == s[k + off] by {}
    assert forall|i: int, j: int| 0 <= i < j < r.len() implies text::text_lt(#[trigger] r[i], #[trigger] r[j]) by {
        assert(text::text_lt(s[i + off], s[j + off]));
    }
    assert forall|i: int, j: int| 0 <= i < r.len() && 0 <= j < r.len() && i != j implies r[i] != r[j] by {
        assert(s[i + off] != s[j + off]);
    }
    assert forall|t: Seq<char>| #[trigger] r.contains(t) <==> t.len() > 0 && (fixed_texts(fixed).contains(t)
        || rule_texts(given).contains(t)) by {
        if r.contains(t) {
            let m = r.index_of(t);
            assert(r[m] == s[m + off]);
            assert(s.contains(t));
        }
        if t.len() > 0 && s.contains(t) {
            let m = s.index_of(t);
            assert(r[m - off] == t);
        }
    }
}

/// The answer to an import: what became of each file, and how many of each.
#[derive(Debug)]
pub struct ImportPathResponse {
    pub results: Vec<FileResult>,
    pub summary: ImportSummary,
}

impl ImportPathResponse {
    /// The answer before any file.
    pub fn new() -> (r: Self)
        ensures
            r.results.len() == 0,
            r.summary.scanned == 0 && r.summary.balanced(),
    {
        ImportPathResponse { results: Vec::new(), summary: ImportSummary::default() }
    }

    /// Takes up what became of a file.
    pub fn push(&mut self, result: FileResult)
        requires
            old(self).summary.can_record(result.status@),
        ensures
            final(self).results@ == old(self).results@.push(result),
            old(self).summary.counts_one_more(result.status@, final(self).summary),
    {
        self.summary.record(result.status);
        self.results.push(result);
    }
}

/// What is reported of a file that is not touched.
pub fn dry_run_result(path: String, tags: Vec<String>) -> (r: FileResult)
    ensures
        r.path == path && r.tags == tags,
        r.status@ == "dry_run"@,
        r.photo_id is None && r.error is None,
{
    FileResult { path, status: "dry_run", tags, photo_id: None, error: None }
}

/// What an import does with a file.
#[derive(Debug)]
pub enum ImportStep {
    /// Nothing: it is neither an image nor a video.
    Skip,
    /// It is reported, and not touched.
    Report(FileResult),
    /// It is read and taken in.
    Read(ImportPlan),
}

/// What an import does with a file that was found, given its rules.
pub fn import_step(file: &ScannedFile, body: &ImportPathBody, rules: &Vec<TagRule>) -> (r: ImportStep)
    ensures
        ({
            let listed = lowered(
                import_tags(text::texts(body.tags@), file.given_by(rules@)),
                body.lowercase_tags,
            );
            match r {
                ImportStep::Skip => !is_media_mime(file.mime()),
                ImportStep::Report(result) => {
                    &&& is_media_mime(file.mime()) && body.dry_run
                    &&& result.path@ == file.path@
                    &&& result.status@ == "dry_run"@
                    &&& text::texts(result.tags@) == listed
                    &&& result.photo_id is None && result.error is None
                },
                ImportStep::Read(p) => {
                    &&& is_media_mime(file.mime()) && !body.dry_run
                    &&& p.path@ == file.path@
                    &&& p.filename@ == text_or(file.name, "upload"@)
                    &&& text::texts(p.tags@) == listed
                },
            }
        }),
{
    match file.plan(&body.tags, rules, body.lowercase_tags) {
        None => ImportStep::Skip,
        Some(plan) => {
            if body.dry_run {
                ImportStep::Report(dry_run_result(plan.path, plan.tags))
            } else {
                ImportStep::Read(plan)
            }
        },
    }
}

/// What is reported of a file that could not be taken in.
pub fn error_result(path: String, tags: Vec<String>, message: String) -> (r: FileResult)
    ensures
        r.path == path && r.tags == tags,
        r.status@ == "error"@,
        r.photo_id is None && r.error == Some(message),
{
    FileResult { path, status: "error", tags, photo_id: None, error: Some(message) }
}

/// What is reported of a file that was taken in.
pub fn ingest_result(path: String, tags: Vec<String>, outcome: Result<IngestOutcome, AppError>) -> (r: FileResult)
    ensures
        r.path == path && r.tags == tags,
        match outcome {
            Ok(o) => {
                &&& r.status@ == ingest::status_text(o.created, o.tags_added.len() > 0)
                &&& r.photo_id == Some(o.photo.id)
                &&& r.error is None
            },
            Err(e) => r.status@ == "error"@ && r.photo_id is None && r.error == Some(e.1),
        },
{
    match outcome {
        Ok(o) => {
            let status = ingest::status_for(o.created, &o.tags_added);
            FileResult { path, status, tags, photo_id: Some(o.photo.id), error: None }
        },
        Err(e) => error_result(path, tags, e.1),
    }
}

/// A page has as many photos as asked for, if that is from 1 to 200, else the
/// nearest such number; where nothing is asked for, 50.
pub proof fn law_page_sizes_are_clamped(n: i64)
    ensures
        1 <= n <= 200 ==> limit_for(Some(n)) == n,
        n <= 0 ==> limit_for(Some(n)) == 1,
        n >= 201 ==> limit_for(Some(n)) == 200,
        limit_for(None) == 50,
{
}

/// A cursor is two texts with a bar between them; exactly a text without a bar
/// is none, and the first bar is the one that counts.
pub proof fn law_cursor_is_cut_at_its_first_bar(a: Seq<char>, b: Seq<char>, c: Seq<char>)
    ensures
        cursor_text(a, b) == a + seq!['|'] + b,
        !a.contains('|') ==> cursor_pair(a + seq!['|'] + b) == Some((a, b)),
        cursor_pair(c) is None <==> !c.contains('|'),
{
    assert(cursor_text(a, b) =~= a + seq!['|'] + b);
    if !a.contains('|') {
        law_cursor_round_trip(a, b);
    }
    text::lemma_first_at(c, '|');
}

/// Rows are listed newest first, those of one time by their identifiers from the
/// greatest down: behind a cursor is what is older, or as old with a lesser
/// identifier. The row of the cursor itself is not.
pub proof fn law_older_rows_are_behind(row: PhotoRow, created_at: Seq<char>, id: Seq<char>)
    ensures
        text::text_lt(row.created_at@, created_at) ==> is_behind(row, created_at, id),
        row.created_at@ == created_at ==> (is_behind(row, created_at, id) <==> text::text_lt(row.id@, id)),
        text::text_lt(created_at, row.created_at@) ==> !is_behind(row, created_at, id),
        !is_behind(row, row.created_at@, row.id@),
{
    text::lemma_lt_irreflexive(row.created_at@);
    text::lemma_lt_irreflexive(row.id@);
    if text::text_lt(created_at, row.created_at@) {
        text::lemma_lt_irreflexive(created_at);
        if text::text_lt(row.created_at@, created_at) {
            text::lemma_lt_transitive(created_at, row.created_at@, created_at);
        }
    }
}

/// A page holds the first rows that were fetched, no more than fit; there is a
/// cursor exactly if rows are left over, and it is that of the last row on the
/// page.
pub proof fn law_page_holds_the_first_rows(rows: Seq<PhotoRow>, limit: int)
    requires
        limit > 0,
    ensures
        page_of(rows, limit).len() == (if rows.len() <= limit {
            rows.len() as int
        } else {
            limit
        }),
        forall|i: int| 0 <= i < page_of(rows, limit).len() ==> #[trigger] page_of(rows, limit)[i] == rows[i],
        cursor_behind(rows, limit) is Some <==> rows.len() > limit,
        rows.len() > limit ==> cursor_behind(rows, limit) == Some(
            page_of(rows, limit).last().created_at@ + seq!['|'] + page_of(rows, limit).last().id@,
        ),
{
    if rows.len() > limit {
        law_cursor_is_cut_at_its_first_bar(rows[limit - 1].created_at@, rows[limit - 1].id@, Seq::empty());
    }
}

/// The texts of the queries for lists of photos. Behind a cursor, the bound on
/// the time and the identifier stands beside the condition, and nothing else
/// differs. The columns are those of a row, each of the photo that the condition
/// is on.
pub proof fn law_page_queries(condition: Seq<char>)
    ensures
        P_COLUMNS@
            == "p.id, p.hash, p.original_filename, p.mime_type, p.media_type, p.file_size, p.width, p.height, p.duration_seconds, p.taken_at, p.created_at"@,
        page_text(condition, false)
            == "SELECT p.id, p.hash, p.original_filename, p.mime_type, p.media_type, p.file_size, p.width, p.height, p.duration_seconds, p.taken_at, p.created_at FROM photos p WHERE "@
            + condition + " ORDER BY p.created_at DESC, p.id DESC LIMIT ?"@,
        page_text(condition, true) == page_text(
            condition + " AND (created_at < ? OR (created_at = ? AND id < ?))"@,
            false,
        ),
        trash_condition()
            == "EXISTS (SELECT 1 FROM photo_tags pt_trash WHERE pt_trash.photo_id = p.id AND pt_trash.tag_id = ?)"@,
{
    reveal_strlit("SELECT ");
    reveal_strlit(
        "p.id, p.hash, p.original_filename, p.mime_type, p.media_type, p.file_size, p.width, p.height, p.duration_seconds, p.taken_at, p.created_at",
    );
    reveal_strlit(" FROM photos p WHERE ");
    reveal_strlit(
        "SELECT p.id, p.hash, p.original_filename, p.mime_type, p.media_type, p.file_size, p.width, p.height, p.duration_seconds, p.taken_at, p.created_at FROM photos p WHERE ",
    );
    let head = "SELECT "@ + P_COLUMNS@ + " FROM photos p WHERE "@;
    assert(head
        =~= "SELECT p.id, p.hash, p.original_filename, p.mime_type, p.media_type, p.file_size, p.width, p.height, p.duration_seconds, p.taken_at, p.created_at FROM photos p WHERE "@);
}

/// A request searches for the text that it gives, and for everything if it gives
/// none or nothing but white space. Its cursor is bad exactly if it has one
/// without a bar.
pub proof fn law_request_searches_for_its_text(query: ListQuery)
    ensures
        query.q is Some ==> query.search() == search::parse_text(query.q->0@),
        query.q is None ==> query.search() == Ok::<Query, Seq<char>>(Query::All),
        query.has_bad_cursor() <==> query.cursor is Some && !query.cursor->0@.contains('|'),
{
    reveal_strlit("");
    search::law_blank_matches_all(""@);
    if query.cursor is Some {
        text::lemma_first_at(query.cursor->0@, '|');
    }
}

/// The cursor of a plan is that of the request: missing where it is, and else the
/// pair around the first bar.
pub proof fn law_plan_has_the_cursor(given: Option<String>, cursor: Option<(String, String)>)
    requires
        is_cursor(given, cursor),
    ensures
        given is Some <==> cursor is Some,
        given is Some ==> given->0@ == (cursor->0).0@ + seq!['|'] + (cursor->0).1@ && !(cursor->0).0@.contains('|'),
{
    if given is Some {
        let c = given->0@;
        let pair = cursor->0;
        text::lemma_first_at(c, '|');
        let k = text::first_at(c, '|');
        assert(c =~= c.take(k) + seq!['|'] + c.skip(k + 1));
        if pair.0@.contains('|') {
            let m = pair.0@.index_of('|');
            assert(c[m] == '|');
        }
    }
}

/// Rules are used if all of them could be made, each in its place. If not, the
/// first that could not is what the answer tells of.
pub proof fn law_first_bad_rule_is_told(outcomes: Seq<Result<TagRule, String>>, r: Result<Vec<TagRule>, AppError>, k: int)
    requires
        are_collected(outcomes, r),
        0 <= k <= outcomes.len(),
        forall|i: int| 0 <= i < k ==> (#[trigger] outcomes[i]) is Ok,
        k < outcomes.len() ==> outcomes[k] is Err,
    ensures
        r is Ok <==> k == outcomes.len(),
        r is Ok ==> r->Ok_0.len() == outcomes.len() && forall|i: int|
            0 <= i < outcomes.len() ==> outcomes[i] == Ok::<TagRule, String>(#[trigger] r->Ok_0@[i]),
        r is Err ==> r->Err_0.0 == 400 && r->Err_0.1@ == "invalid tag-rule regex: "@ + outcomes[k]->Err_0@,
{
    lemma_first_failure(outcomes, k);
}

/// A text stands for itself, and only where it is missing does the other.
pub proof fn law_missing_text_is_replaced(s: String, other: Seq<char>)
    ensures
        text_or(Some(s), other) == s@,
        text_or(None, other) == other,
{
}

/// Whether a scanned file is the file at a path: its parts are those of the path.
pub open spec fn is_file_at(file: ScannedFile, path: Seq<char>) -> bool {
    &&& file.path@ == path
    &&& text::opt_string(file.name) == paths::last_name(paths::components(path))
    &&& text::opt_string(file.stem) == paths::path_stem(path)
    &&& text::opt_string(file.parent) == paths::parent_name(path)
    &&& text::opt_string(file.extension) == paths::path_extension(path)
}

/// What a rule fills in for a file that lies in a directory, wherever that is, if
/// its pattern matches the path and has no group of the name: under `parent` the
/// name of the directory, under `filename` the name of the file, under `stem`
/// what stands before the last dot of it. A rule whose pattern does not match the
/// path gives nothing.
pub proof fn law_rule_sees_where_a_file_lies(
    file: ScannedFile,
    dir: Seq<char>,
    folder: Seq<char>,
    stem: Seq<char>,
    ext: Seq<char>,
    rule: TagRule,
)
    requires
        folder.len() > 0 && !folder.contains('/') && folder != seq!['.'] && folder != seq!['.', '.'],
        stem.len() > 0 && !stem.contains('/') && stem != seq!['.'],
        !ext.contains('/') && !ext.contains('.'),
        is_file_at(file, paths::joined(paths::joined(dir, folder), stem.push('.') + ext)),
    ensures
        ({
            let names = pattern::group_names(rule.pattern());
            let groups = pattern::match_groups(rule.pattern(), file.path@);
            &&& groups is None ==> file.given(rule) is None && file.lacks(rule) is None
            &&& groups is Some && rule.template() == "{parent}"@ && !names.contains(Some("parent"@)) ==> file.given(rule)
                == Some(folder)
            &&& groups is Some && rule.template() == "{filename}"@ && !names.contains(Some("filename"@)) ==> file.given(
                rule,
            ) == Some(stem.push('.') + ext)
            &&& groups is Some && rule.template() == "{stem}"@ && !names.contains(Some("stem"@)) ==> file.given(rule)
                == Some(stem)
            &&& groups is Some ==> (file.given(rule) is Some <==> file.lacks(rule) is None)
        }),
{
    let name = stem.push('.') + ext;
    let top = paths::joined(dir, folder);
    let path = paths::joined(top, name);
    assert(!name.contains('/')) by {
        if name.contains('/') {
            let k = name.index_of('/');
            if k < stem.len() {
                assert(stem.contains(stem[k]));
            } else if k > stem.len() {
                assert(ext.contains(ext[k - stem.len() - 1]));
            }
        }
    }
    assert(name != seq!['.', '.']) by {
        if name == seq!['.', '.'] {
            assert(stem.len() == 1 && stem[0] == name[0]);
            assert(stem =~= seq!['.']);
        }
    }
    paths::law_parent_is_the_directory_of_a_file(dir, folder, name);
    paths::law_file_lies_in_its_directory(top, name);
    paths::law_path_has_the_extension_of_its_file(top, name);
    paths::law_extension_stands_behind_the_last_dot(stem, ext);
    let names = pattern::group_names(rule.pattern());
    let groups = pattern::match_groups(rule.pattern(), file.path@);
    if groups is Some {
        rules::law_file_fields_are_filled_in(names, groups->0, name, stem, folder);
        rules::law_rule_gives_a_tag_or_misses_a_field(rule.template(), names, groups->0, name, stem, folder);
    } else {
        rules::law_rule_gives_a_tag_or_misses_a_field(rule.template(), names, Seq::empty(), name, stem, folder);
    }
}

/// A file without a directory before it has no parent to fill in, and what has no
/// name is called `upload`: nothing stands for the one, and that for the other.
pub proof fn law_rule_fills_in_for_what_is_missing(file: ScannedFile, rule: TagRule)
    requires
        pattern::match_groups(rule.pattern(), file.path@) is Some,
    ensures
        ({
            let names = pattern::group_names(rule.pattern());
            &&& file.parent is None && rule.template() == "{parent}"@ && !names.contains(Some("parent"@)) ==> file.given(
                rule,
            ) == Some(Seq::<char>::empty())
            &&& file.stem is None && rule.template() == "{stem}"@ && !names.contains(Some("stem"@)) ==> file.given(rule)
                == Some(Seq::<char>::empty())
            &&& file.name is None && rule.template() == "{filename}"@ && !names.contains(Some("filename"@)) ==> file.given(
                rule,
            ) == Some("upload"@)
            &&& file.parent is Some && rule.template() == "{parent}"@ && !names.contains(Some("parent"@)) ==> file.given(
                rule,
            ) == Some(file.parent->0@)
            &&& file.stem is Some && rule.template() == "{stem}"@ && !names.contains(Some("stem"@)) ==> file.given(rule)
                == Some(file.stem->0@)
            &&& file.name is Some && rule.template() == "{filename}"@ && !names.contains(Some("filename"@)) ==> file.given(
                rule,
            ) == Some(file.name->0@)
        }),
{
    reveal_strlit("");
    assert(""@ =~= Seq::<char>::empty());
    rules::law_file_fields_are_filled_in(
        pattern::group_names(rule.pattern()),
        pattern::match_groups(rule.pattern(), file.path@)->0,
        text_or(file.name, "upload"@),
        text_or(file.stem, ""@),
        text_or(file.parent, ""@),
    );
}

/// Every rule is asked, in the order of the rules, and none for another.
pub proof fn law_every_rule_is_asked(file: ScannedFile, rules: Seq<TagRule>)
    ensures
        file.given_by(rules).len() == rules.len(),
        forall|i: int| 0 <= i < rules.len() ==> #[trigger] file.given_by(rules)[i] == file.given(rules[i]),
{
}

/// A file is imported exactly if the type that its extension stands for is of an
/// image or of a video, whatever stands behind the slash.
pub proof fn law_images_and_videos_are_imported(file: ScannedFile, sub: Seq<char>)
    ensures
        file.extension is None ==> !is_media_mime(file.mime()),
        file.extension is Some && media::mime_of_extension(file.extension->0@) is None ==> !is_media_mime(file.mime()),
        file.extension is Some && media::mime_of_extension(file.extension->0@) == Some("image/"@ + sub)
            ==> is_media_mime(file.mime()),
        file.extension is Some && media::mime_of_extension(file.extension->0@) == Some("video/"@ + sub)
            ==> is_media_mime(file.mime()),
        file.extension is Some && media::mime_of_extension(file.extension->0@) == Some(sub) && (forall|rest: Seq<char>|
            sub != #[trigger] ("image/"@ + rest)) && (forall|rest: Seq<char>| sub != #[trigger] ("video/"@ + rest))
            ==> !is_media_mime(file.mime()),
{
    media::law_main_type_tells_the_kind(sub, sub);
}

proof fn lemma_rule_texts(given: Seq<Option<Seq<char>>>, t: Seq<char>)
    ensures
        rule_texts(given).contains(t) <==> t.len() > 0 && exists|i: int|
            0 <= i < given.len() && (#[trigger] given[i]) is Some && t == text::trimmed_of(
                text::trimmed(given[i]->0),
                '/',
            ),
    decreases given.len(),
{
    if given.len() > 0 {
        let front = given.drop_last();
        let n = given.len() - 1;
        lemma_rule_texts(front, t);
        let before = rule_texts(front);
        let all = rule_texts(given);
        if all.contains(t) {
            let m = all.index_of(t);
            if m < before.len() {
                assert(before[m] == t);
                assert(before.contains(t));
                let i = choose|i: int|
                    0 <= i < front.len() && (#[trigger] front[i]) is Some && t == text::trimmed_of(
                        text::trimmed(front[i]->0),
                        '/',
                    );
                assert(given[i] == front[i]);
            } else {
                assert(given[n] is Some);
            }
        }
        if t.len() > 0 && exists|i: int|
            0 <= i < given.len() && (#[trigger] given[i]) is Some && t == text::trimmed_of(
                text::trimmed(given[i]->0),
                '/',
            ) {
            let i = choose|i: int|
                0 <= i < given.len() && (#[trigger] given[i]) is Some && t == text::trimmed_of(
                    text::trimmed(given[i]->0),
                    '/',
                );
            if i < n {
                assert(front[i] == given[i]);
                assert(before.contains(t));
                assert(all[before.index_of(t)] == t);
            } else {
                assert(all.last() == t);
            }
        }
    }
}

/// A text is a tag of an imported file exactly if it is not empty and either a
/// fixed tag without the white space around it, or what a rule gave without the
/// white space and then the slashes around it.
pub proof fn law_import_tags_are_those_asked_for(fixed: Seq<Seq<char>>, given: Seq<Option<Seq<char>>>, t: Seq<char>)
    ensures
        import_tags(fixed, given).contains(t) <==> t.len() > 0 && ((exists|i: int|
            0 <= i < fixed.len() && t == text::trimmed(#[trigger] fixed[i])) || (exists|i: int|
            0 <= i < given.len() && (#[trigger] given[i]) is Some && t == text::trimmed_of(
                text::trimmed(given[i]->0),
                '/',
            ))),
{
    law_import_tags(fixed, given);
    lemma_rule_texts(given, t);
    let fs = fixed_texts(fixed);
    if fs.contains(t) {
        let i = fs.index_of(t);
        assert(t == text::trimmed(fixed[i]));
    }
    if exists|i: int| 0 <= i < fixed.len() && t == text::trimmed(#[trigger] fixed[i]) {
        let i = choose|i: int| 0 <= i < fixed.len() && t == text::trimmed(#[trigger] fixed[i]);
        assert(fs[i] == t);
    }
}

/// Tags are put in lowercase one by one where that is asked for, and are left as
/// they are where it is not.
pub proof fn law_tags_are_put_in_lowercase(s: Seq<Seq<char>>)
    ensures
        lowered(s, false) == s,
        lowered(s, true).len() == s.len(),
        forall|i: int| 0 <= i < s.len() ==> #[trigger] lowered(s, true)[i] == text::lowercase_of(s[i]),
{
}

/// A rule that compiles has the pattern and the template that were asked for, in
/// the place in which they were.
pub proof fn law_rules_are_those_asked_for(
    specs: Seq<TagRuleSpec>,
    outcomes: Seq<Result<TagRule, String>>,
    i: int,
)
    requires
        are_outcomes(specs, outcomes),
        0 <= i < specs.len(),
        outcomes[i] is Ok,
    ensures
        outcomes.len() == specs.len(),
        outcomes[i]->Ok_0.pattern() == specs[i].pattern@,
        outcomes[i]->Ok_0.template() == specs[i].template@,
{
}

/// A file that was found has its name, its stem, its extension and the name of
/// its directory from its path.
pub proof fn law_found_file_knows_its_place(
    file: ScannedFile,
    dir: Seq<char>,
    folder: Seq<char>,
    stem: Seq<char>,
    ext: Seq<char>,
)
    requires
        folder.len() > 0 && !folder.contains('/') && folder != seq!['.'] && folder != seq!['.', '.'],
        stem.len() > 0 && !stem.contains('/') && stem != seq!['.'],
        !ext.contains('/') && !ext.contains('.'),
        is_file_at(file, paths::joined(paths::joined(dir, folder), stem.push('.') + ext)),
    ensures
        file.name is Some && file.name->0@ == stem.push('.') + ext,
        file.stem is Some && file.stem->0@ == stem,
        file.extension is Some && file.extension->0@ == ext,
        file.parent is Some && file.parent->0@ == folder,
{
    let name = stem.push('.') + ext;
    assert(!name.contains('/')) by {
        if name.contains('/') {
            let k = name.index_of('/');
            if k < stem.len() {
                assert(stem.contains(stem[k]));
            } else if k > stem.len() {
                assert(ext.contains(ext[k - stem.len() - 1]));
            }
        }
    }
    assert(name != seq!['.', '.']) by {
        if name == seq!['.', '.'] {
            assert(name.len() == stem.len() + 1 + ext.len());
            assert(seq!['.', '.'].len() == 2);
            assert(stem[0] == name[0]);
            assert(stem =~= seq!['.']);
        }
    }
    assert(name.len() > 1);
    let place = paths::joined(dir, folder);
    paths::law_file_lies_in_its_directory(place, name);
    paths::law_parent_is_the_directory_of_a_file(dir, folder, name);
    paths::law_path_has_the_extension_of_its_file(place, name);
    paths::law_extension_stands_behind_the_last_dot(stem, ext);
}

/// A rule is given the path of a file to match, and fills its template in with
/// what the path matched and what is known of the file. `upload` stands for a
/// name that is missing, and nothing for a missing stem or directory.
pub proof fn law_rule_is_given_what_is_known(file: ScannedFile, rule: TagRule)
    ensures
        ({
            let names = pattern::group_names(rule.pattern());
            let groups = pattern::match_groups(rule.pattern(), file.path@);
            let filename = if file.name is Some {
                file.name->0@
            } else {
                "upload"@
            };
            let stem = if file.stem is Some {
                file.stem->0@
            } else {
                ""@
            };
            let parent = if file.parent is Some {
                file.parent->0@
            } else {
                ""@
            };
            &&& file.given(rule) == rules::tag_for(rule.template(), names, groups, filename, stem, parent)
            &&& file.lacks(rule) == rules::missing_for(rule.template(), names, groups, filename, stem, parent)
        }),
{
}

} // verus!
