//! Finding tags by their paths, and creating those that are missing, one
//! segment after the other.
use vstd::prelude::*;

use crate::tags;
use crate::tagtree;
use crate::tagtree::TagRow;
use crate::text;

verus! {

/// The index of the last child of `parent` with this name, or -1.
pub open spec fn child_at(rows: Seq<TagRow>, parent: i64, name: Seq<char>) -> int
    decreases rows.len(),
{
    if rows.len() == 0 {
        -1
    } else if rows.last().parent_id == parent && rows.last().name@ == name {
        rows.len() - 1
    } else {
        child_at(rows.drop_last(), parent, name)
    }
}

/// The tag below `parent` with this name.
pub open spec fn lookup(rows: Seq<TagRow>, parent: i64, name: Seq<char>) -> Option<i64> {
    if child_at(rows, parent, name) >= 0 {
        Some(rows[child_at(rows, parent, name)].id)
    } else {
        None
    }
}

/// The tag to which these names lead from `parent`.
pub open spec fn find(rows: Seq<TagRow>, parent: i64, names: Seq<Seq<char>>) -> Option<i64>
    decreases names.len(),
{
    if names.len() == 0 {
        Some(parent)
    } else {
        match lookup(rows, parent, names[0]) {
            Some(id) => find(rows, id, names.skip(1)),
            None => None,
        }
    }
}

/// The tag that a path names. A path without segments names none.
pub open spec fn find_path(rows: Seq<TagRow>, path: Seq<char>) -> Option<i64> {
    if tags::segments(path).len() == 0 {
        None
    } else {
        find(rows, 0, tags::segments(path))
    }
}

/// A walk along a tag path. It asks for one tag after the other, each below the
/// one before.
pub struct PathWalk<'a> {
    segments: Vec<&'a str>,
    next: usize,
    parent_id: i64,
}

impl<'a> PathWalk<'a> {
    #[verifier::type_invariant]
    spec fn wf(&self) -> bool {
        self.next <= self.segments.len()
    }

    /// The segments that are still to be walked.
    pub closed spec fn rest(&self) -> Seq<Seq<char>> {
        text::str_texts(self.segments@).skip(self.next as int)
    }

    /// The tag that the walk has come to, or 0 at the top.
    pub closed spec fn at(&self) -> i64 {
        self.parent_id
    }

    /// Starts at the top. There is no walk along a path without segments.
    pub fn new(path: &'a str) -> (r: Option<Self>)
        ensures
            r is Some <==> tags::segments(path@).len() > 0,
            r matches Some(w) ==> w.rest() == tags::segments(path@) && w.at() == 0,
    {
        let segments = tags::split_path(path);
        if segments.len() == 0 {
            assert(text::str_texts(segments@).len() == 0);
            None
        } else {
            assert(text::str_texts(segments@).len() > 0);
            let w = PathWalk { segments, next: 0, parent_id: 0 };
            assert(w.rest() =~= tags::segments(path@));
            Some(w)
        }
    }

    /// Starts at the top, to create what is missing. A path without segments is
    /// refused.
    pub fn to_create(path: &'a str) -> (r: Result<Self, String>)
        ensures
            match r {
                Ok(w) => {
                    &&& tags::segments(path@).len() > 0
                    &&& w.rest() == tags::segments(path@)
                    &&& w.at() == 0
                },
                Err(message) => tags::segments(path@).len() == 0 && message@ == "tag path must not be empty"@,
            },
    {
        match PathWalk::new(path) {
            Some(w) => Ok(w),
            None => Err("tag path must not be empty".to_owned()),
        }
    }

    /// The parent and the name of the tag to look up or create next; nothing
    /// when the walk is done.
    pub fn ask(&self) -> (r: Option<(i64, &'a str)>)
        ensures
            r is Some <==> self.rest().len() > 0,
            r matches Some(q) ==> q.0 == self.at() && q.1@ == self.rest()[0],
    {
        proof {
            use_type_invariant(self);
        }
        if self.next < self.segments.len() {
            assert(self.rest()[0] == self.segments@[self.next as int]@);
            Some((self.parent_id, self.segments[self.next]))
        } else {
            None
        }
    }

    /// Goes on from the tag that was found or created. A walk that is done
    /// stays where it is.
    pub fn go(&mut self, id: i64)
        ensures
            old(self).rest().len() > 0 ==> final(self).at() == id && final(self).rest() == old(self).rest().skip(1),
            old(self).rest().len() == 0 ==> final(self).at() == old(self).at() && final(self).rest() == old(
                self,
            ).rest(),
    {
        proof {
            use_type_invariant(&*self);
        }
        if self.next < self.segments.len() {
            let ghost was = self.rest();
            self.next = self.next + 1;
            self.parent_id = id;
            assert(self.rest() =~= was.skip(1));
        }
    }

    /// The tag that the walk has come to, or 0 at the top.
    pub fn id(&self) -> (r: i64)
        ensures
            r == self.at(),
    {
        self.parent_id
    }
}

/// A walk that is given what the table holds comes to the tag that the path
/// names, and nowhere if there is none: at every step the tag that is sought
/// from there on stays the same.
pub proof fn law_walk_finds(rows: Seq<TagRow>, at: i64, rest: Seq<Seq<char>>)
    ensures
        rest.len() == 0 ==> find(rows, at, rest) == Some(at),
        rest.len() > 0 ==> match lookup(rows, at, rest[0]) {
            Some(id) => find(rows, at, rest) == find(rows, id, rest.skip(1)),
            None => find(rows, at, rest) is None,
        },
{
}

/// Whether a walk from `parent` along `names` that creates what is missing
/// turns the table `before` into `after` and comes to `id`. A new row gets an
/// identifier that no row has.
pub open spec fn creates(before: Seq<TagRow>, parent: i64, names: Seq<Seq<char>>, after: Seq<TagRow>, id: i64) -> bool
    decreases names.len(),
{
    if names.len() == 0 {
        after == before && id == parent
    } else {
        match lookup(before, parent, names[0]) {
            Some(next) => creates(before, next, names.skip(1), after, id),
            None => exists|row: TagRow|
                #![trigger before.push(row)]
                is_new(before, row, parent, names[0]) && creates(before.push(row), row.id, names.skip(1), after, id),
        }
    }
}

/// Whether `row` is a new row for a tag below `parent`.
pub open spec fn is_new(rows: Seq<TagRow>, row: TagRow, parent: i64, name: Seq<char>) -> bool {
    row.parent_id == parent && row.name@ == name && row.id != 0 && tagtree::row_of(rows, row.id) < 0
}

/// Whether no two tags have one parent and one name.
pub open spec fn named_apart(rows: Seq<TagRow>) -> bool {
    forall|i: int, j: int|
        0 <= i < j < rows.len() ==> !((#[trigger] rows[i]).parent_id == (#[trigger] rows[j]).parent_id && rows[i].name@
            == rows[j].name@)
}

/// Whether the rows are those of a sound table of tags: identifiers and names
/// tell tags apart, every name can be one, and every tag hangs from the top.
pub open spec fn sound(rows: Seq<TagRow>) -> bool {
    &&& tagtree::keyed(rows)
    &&& named_apart(rows)
    &&& forall|i: int| 0 <= i < rows.len() ==> tags::valid_name((#[trigger] rows[i]).name@)
    &&& forall|i: int| 0 <= i < rows.len() ==> tagtree::anchored(rows, i, rows.len())
}

proof fn lemma_child_at(rows: Seq<TagRow>, parent: i64, name: Seq<char>)
    ensures
        -1 <= child_at(rows, parent, name) < rows.len(),
        child_at(rows, parent, name) >= 0 ==> rows[child_at(rows, parent, name)].parent_id == parent
            && rows[child_at(rows, parent, name)].name@ == name,
        forall|i: int|
            child_at(rows, parent, name) < i < rows.len() ==> !((#[trigger] rows[i]).parent_id == parent
                && rows[i].name@ == name),
    decreases rows.len(),
{
    if rows.len() > 0 && !(rows.last().parent_id == parent && rows.last().name@ == name) {
        let front = rows.drop_last();
        lemma_child_at(front, parent, name);
        assert forall|i: int| child_at(rows, parent, name) < i < rows.len() implies !((#[trigger] rows[i]).parent_id
            == parent && rows[i].name@ == name) by {
            if i < front.len() {
                assert(front[i] == rows[i]);
            }
        }
    }
}

proof fn lemma_lookup_push(rows: Seq<TagRow>, row: TagRow, parent: i64, name: Seq<char>)
    ensures
        lookup(rows.push(row), parent, name) == (if row.parent_id == parent && row.name@ == name {
            Some(row.id)
        } else {
            lookup(rows, parent, name)
        }),
{
    assert(rows.push(row).drop_last() =~= rows);
    lemma_child_at(rows, parent, name);
}

/// A new tag changes no search that was successful.
proof fn lemma_find_push(rows: Seq<TagRow>, row: TagRow, parent: i64, names: Seq<Seq<char>>)
    requires
        lookup(rows, row.parent_id, row.name@) is None,
        find(rows, parent, names) is Some,
    ensures
        find(rows.push(row), parent, names) == find(rows, parent, names),
    decreases names.len(),
{
    if names.len() > 0 {
        lemma_lookup_push(rows, row, parent, names[0]);
        lemma_find_push(rows, row, lookup(rows, parent, names[0])->0, names.skip(1));
    }
}

proof fn lemma_row_of_push(rows: Seq<TagRow>, row: TagRow, id: i64)
    ensures
        tagtree::row_of(rows.push(row), id) == (if row.id == id {
            rows.len() as int
        } else {
            tagtree::row_of(rows, id)
        }),
{
    assert(rows.push(row).drop_last() =~= rows);
}

proof fn lemma_anchored_push(rows: Seq<TagRow>, row: TagRow, i: int, n: nat)
    requires
        0 <= i < rows.len(),
        tagtree::row_of(rows, row.id) < 0,
        tagtree::anchored(rows, i, n),
    ensures
        tagtree::anchored(rows.push(row), i, n),
        tagtree::anchored(rows.push(row), i, n + 1),
    decreases n,
{
    let more = rows.push(row);
    assert(more[i] == rows[i]);
    if rows[i].parent_id != 0 {
        tagtree::lemma_row_of(rows, rows[i].parent_id);
        lemma_row_of_push(rows, row, rows[i].parent_id);
        lemma_anchored_push(rows, row, tagtree::row_of(rows, rows[i].parent_id), (n - 1) as nat);
    }
}

/// A new tag below a tag of a sound table leaves the table sound.
proof fn lemma_sound_push(rows: Seq<TagRow>, row: TagRow, parent: i64, name: Seq<char>)
    requires
        sound(rows),
        parent == 0 || tagtree::row_of(rows, parent) >= 0,
        tags::valid_name(name),
        lookup(rows, parent, name) is None,
        is_new(rows, row, parent, name),
    ensures
        sound(rows.push(row)),
        tagtree::row_of(rows.push(row), row.id) >= 0,
{
    let more = rows.push(row);
    tagtree::lemma_row_of(rows, row.id);
    lemma_child_at(rows, parent, name);
    assert forall|i: int, j: int| 0 <= i < j < more.len() implies (#[trigger] more[i]).id != (#[trigger] more[j]).id by {
        if j == rows.len() {
            assert(rows[i].id != row.id);
        } else {
            assert(more[i] == rows[i] && more[j] == rows[j]);
        }
    }
    assert forall|i: int, j: int| 0 <= i < j < more.len() implies !((#[trigger] more[i]).parent_id == (
    #[trigger] more[j]).parent_id && more[i].name@ == more[j].name@) by {
        if j == rows.len() {
            assert(!(rows[i].parent_id == parent && rows[i].name@ == name));
        } else {
            assert(more[i] == rows[i] && more[j] == rows[j]);
        }
    }
    assert forall|i: int| 0 <= i < more.len() implies tagtree::anchored(more, i, more.len()) by {
        if i < rows.len() {
            lemma_anchored_push(rows, row, i, rows.len());
        } else if parent != 0 {
            let up = tagtree::row_of(rows, parent);
            tagtree::lemma_row_of(rows, parent);
            lemma_row_of_push(rows, row, parent);
            assert(rows[up].id != row.id);
            lemma_anchored_push(rows, row, up, rows.len());
            assert(more[i] == row);
            assert(tagtree::row_of(more, parent) == up);
        }
    }
    lemma_row_of_push(rows, row, row.id);
}

/// Whether `id` is the tag to which the first of these names lead, as far as
/// some name that led nowhere before.
pub open spec fn is_missing_prefix(
    before: Seq<TagRow>,
    parent: i64,
    names: Seq<Seq<char>>,
    after: Seq<TagRow>,
    id: i64,
) -> bool {
    exists|k: int|
        #![trigger names.take(k)]
        0 < k <= names.len() && find(after, parent, names.take(k)) == Some(id) && find(before, parent, names.take(k))
            is None
}

/// A tag that is new behind the first name is new on the whole way.
proof fn lemma_missing_behind(
    before: Seq<TagRow>,
    middle: Seq<TagRow>,
    parent: i64,
    next: i64,
    names: Seq<Seq<char>>,
    after: Seq<TagRow>,
    id: i64,
)
    requires
        names.len() > 0,
        lookup(after, parent, names[0]) == Some(next),
        lookup(before, parent, names[0]) is None || (lookup(before, parent, names[0]) == Some(next) && middle
            == before),
        is_missing_prefix(middle, next, names.skip(1), after, id),
    ensures
        is_missing_prefix(before, parent, names, after, id),
{
    let rest = names.skip(1);
    let k = choose|k: int|
        #![trigger rest.take(k)]
        0 < k <= rest.len() && find(after, next, rest.take(k)) == Some(id) && find(middle, next, rest.take(k)) is None;
    let part = names.take(k + 1);
    assert(part.skip(1) =~= rest.take(k));
    assert(part[0] == names[0]);
    assert(find(after, parent, part) == Some(id));
    assert(find(before, parent, part) is None);
}

proof fn lemma_find_one(rows: Seq<TagRow>, parent: i64, name: Seq<char>)
    ensures
        find(rows, parent, seq![name]) == lookup(rows, parent, name),
{
    reveal_with_fuel(find, 2);
    assert(seq![name].skip(1) =~= Seq::<Seq<char>>::empty());
}

proof fn lemma_creates(before: Seq<TagRow>, parent: i64, names: Seq<Seq<char>>, after: Seq<TagRow>, id: i64)
    requires
        sound(before),
        parent == 0 || tagtree::row_of(before, parent) >= 0,
        forall|i: int| 0 <= i < names.len() ==> tags::valid_name(#[trigger] names[i]),
        creates(before, parent, names, after, id),
    ensures
        sound(after),
        find(after, parent, names) == Some(id),
        before.len() <= after.len() && after.take(before.len() as int) == before,
        forall|p: i64, s: Seq<Seq<char>>| #[trigger]
            find(before, p, s) is Some ==> find(after, p, s) == find(before, p, s),
        forall|i: int|
            before.len() <= i < after.len() ==> is_missing_prefix(before, parent, names, after, #[trigger] after[i].id),
    decreases names.len(),
{
    if names.len() == 0 {
        assert(after.take(before.len() as int) =~= before);
    } else {
        let rest = names.skip(1);
        let first = seq![names[0]];
        assert forall|i: int| 0 <= i < rest.len() implies tags::valid_name(#[trigger] rest[i]) by {
            assert(rest[i] == names[i + 1]);
        }
        assert(tags::valid_name(names[0]));
        lemma_find_one(before, parent, names[0]);
        lemma_find_one(after, parent, names[0]);
        match lookup(before, parent, names[0]) {
            Some(next) => {
                lemma_child_at(before, parent, names[0]);
                let c = child_at(before, parent, names[0]);
                tagtree::lemma_row_of(before, next);
                assert(before[c].id == next);
                lemma_creates(before, next, rest, after, id);
                assert(find(before, parent, first) == Some(next));
                assert(find(after, parent, first) == Some(next));
                assert(lookup(after, parent, names[0]) == Some(next));
                assert forall|i: int| before.len() <= i < after.len() implies is_missing_prefix(
                    before,
                    parent,
                    names,
                    after,
                    #[trigger] after[i].id,
                ) by {
                    lemma_missing_behind(before, before, parent, next, names, after, after[i].id);
                }
            },
            None => {
                let row = choose|row: TagRow|
                    #![trigger before.push(row)]
                    is_new(before, row, parent, names[0]) && creates(before.push(row), row.id, rest, after, id);
                let more = before.push(row);
                lemma_sound_push(before, row, parent, names[0]);
                lemma_creates(more, row.id, rest, after, id);
                lemma_lookup_push(before, row, parent, names[0]);
                lemma_find_one(more, parent, names[0]);
                assert(find(more, parent, first) == Some(row.id));
                assert(find(after, parent, first) == Some(row.id));
                assert(lookup(after, parent, names[0]) == Some(row.id));
                assert(after.take(before.len() as int) =~= after.take(more.len() as int).take(before.len() as int));
                assert(more.take(before.len() as int) =~= before);
                assert forall|p: i64, s: Seq<Seq<char>>| #[trigger] find(before, p, s) is Some implies find(after, p, s)
                    == find(before, p, s) by {
                    lemma_find_push(before, row, p, s);
                }
                assert forall|i: int| before.len() <= i < after.len() implies is_missing_prefix(
                    before,
                    parent,
                    names,
                    after,
                    #[trigger] after[i].id,
                ) by {
                    if i == before.len() {
                        assert(after[i] == after.take(more.len() as int)[i]);
                        assert(after[i] == row);
                        assert(names.take(1) =~= first);
                    } else {
                        lemma_missing_behind(before, more, parent, row.id, names, after, after[i].id);
                    }
                }
            },
        }
    }
}

/// A tag that was created by its path is found by its path. Creating tags
/// removes and changes no row, changes no tag that a path names, and leaves a
/// sound table sound.
pub proof fn law_created_tag_is_found(before: Seq<TagRow>, path: Seq<char>, after: Seq<TagRow>, id: i64)
    requires
        sound(before),
        tags::segments(path).len() > 0,
        creates(before, 0, tags::segments(path), after, id),
    ensures
        sound(after),
        find_path(after, path) == Some(id),
        before.len() <= after.len() && after.take(before.len() as int) == before,
        forall|other: Seq<char>| #[trigger]
            find_path(before, other) is Some ==> find_path(after, other) == find_path(before, other),
{
    tags::law_segments_are_names(path);
    lemma_creates(before, 0, tags::segments(path), after, id);
}

/// A tag that its path names is not created again: the table stays as it is.
pub proof fn law_existing_tag_is_kept(before: Seq<TagRow>, parent: i64, names: Seq<Seq<char>>, after: Seq<TagRow>, id: i64)
    requires
        find(before, parent, names) is Some,
        creates(before, parent, names, after, id),
    ensures
        after == before,
        Some(id) == find(before, parent, names),
    decreases names.len(),
{
    if names.len() > 0 {
        law_existing_tag_is_kept(before, lookup(before, parent, names[0])->0, names.skip(1), after, id);
    }
}

/// The names on the way to row `i` from the top.
spec fn names_to(rows: Seq<TagRow>, i: int, n: nat) -> Seq<Seq<char>>
    decreases n,
{
    let up = tagtree::row_of(rows, rows[i].parent_id);
    if rows[i].parent_id == 0 || up < 0 || n == 0 {
        seq![rows[i].name@]
    } else {
        names_to(rows, up, (n - 1) as nat).push(rows[i].name@)
    }
}

proof fn lemma_find_add(rows: Seq<TagRow>, parent: i64, names: Seq<Seq<char>>, last: Seq<char>)
    requires
        find(rows, parent, names) is Some,
    ensures
        find(rows, parent, names.push(last)) == lookup(rows, find(rows, parent, names)->0, last),
    decreases names.len(),
{
    let all = names.push(last);
    if names.len() == 0 {
        assert(all.skip(1) =~= Seq::<Seq<char>>::empty());
        match lookup(rows, parent, last) {
            Some(id) => {
                assert(find(rows, id, all.skip(1)) == Some(id));
            },
            None => {},
        }
    } else {
        assert(all.skip(1) =~= names.skip(1).push(last));
        lemma_find_add(rows, lookup(rows, parent, names[0])->0, names.skip(1), last);
    }
}

proof fn lemma_names_to(rows: Seq<TagRow>, i: int, n: nat)
    requires
        sound(rows),
        0 <= i < rows.len(),
        tagtree::anchored(rows, i, n),
    ensures
        names_to(rows, i, n).len() > 0,
        forall|k: int| 0 <= k < names_to(rows, i, n).len() ==> tags::valid_name(#[trigger] names_to(rows, i, n)[k]),
        text::join_texts(names_to(rows, i, n), "/"@) == tagtree::path_to(rows, i, n),
        find(rows, 0, names_to(rows, i, n)) == Some(rows[i].id),
    decreases n,
{
    let parent = rows[i].parent_id;
    let name = rows[i].name@;
    let up = tagtree::row_of(rows, parent);
    lemma_child_at(rows, parent, name);
    assert(child_at(rows, parent, name) == i) by {
        let c = child_at(rows, parent, name);
        assert(!(c < i));
        assert(c > i ==> !(rows[i].parent_id == rows[c].parent_id && rows[i].name@ == rows[c].name@));
    }
    assert(tags::valid_name(name));
    if parent == 0 {
        assert(Seq::<Seq<char>>::empty().push(name) =~= seq![name]);
        assert(find(rows, 0, Seq::<Seq<char>>::empty()) == Some(0i64));
        lemma_find_add(rows, 0, Seq::empty(), name);
    } else {
        tagtree::lemma_row_of(rows, parent);
        lemma_names_to(rows, up, (n - 1) as nat);
        let front = names_to(rows, up, (n - 1) as nat);
        let all = front.push(name);
        assert(all.drop_last() =~= front);
        lemma_find_add(rows, 0, front, name);
        assert forall|k: int| 0 <= k < all.len() implies tags::valid_name(#[trigger] all[k]) by {
            if k < front.len() {
                assert(all[k] == front[k]);
            }
        }
    }
}

/// The path of a tag of a sound table names that tag.
pub proof fn law_path_names_its_tag(rows: Seq<TagRow>, id: i64)
    requires
        sound(rows),
        tagtree::row_of(rows, id) >= 0,
    ensures
        tagtree::whole_path(rows, id) is Some,
        find_path(rows, tagtree::whole_path(rows, id)->0) == Some(id),
{
    let i = tagtree::row_of(rows, id);
    tagtree::lemma_row_of(rows, id);
    assert(tagtree::anchored(rows, i, rows.len()));
    lemma_names_to(rows, i, rows.len());
    reveal_strlit("/");
    assert("/"@ =~= seq!['/']);
    tags::law_split_undoes_join(names_to(rows, i, rows.len()));
}

proof fn lemma_find_front(rows: Seq<TagRow>, parent: i64, names: Seq<Seq<char>>)
    requires
        names.len() > 0,
        find(rows, parent, names) is Some,
    ensures
        find(rows, parent, names.drop_last()) is Some,
        find(rows, parent, names) == lookup(rows, find(rows, parent, names.drop_last())->0, names.last()),
    decreases names.len(),
{
    let front = names.drop_last();
    if names.len() > 1 {
        let next = lookup(rows, parent, names[0])->0;
        lemma_find_front(rows, next, names.skip(1));
        assert(names.skip(1).drop_last() =~= front.skip(1));
        assert(front[0] == names[0]);
    } else {
        assert(find(rows, parent, front) == Some(parent));
    }
    assert(front.push(names.last()) =~= names);
    lemma_find_add(rows, parent, front, names.last());
}

/// The tag to which names lead from the top has them, with slashes between them,
/// as its path.
proof fn lemma_found_has_path(rows: Seq<TagRow>, names: Seq<Seq<char>>, id: i64)
    requires
        sound(rows),
        names.len() > 0,
        find(rows, 0, names) == Some(id),
    ensures
        tagtree::row_of(rows, id) >= 0,
        tagtree::whole_path(rows, id) == Some(text::join_texts(names, "/"@)),
    decreases names.len(),
{
    let front = names.drop_last();
    let name = names.last();
    lemma_find_front(rows, 0, names);
    let p = find(rows, 0, front)->0;
    lemma_child_at(rows, p, name);
    let c = child_at(rows, p, name);
    tagtree::lemma_row_of(rows, id);
    assert(rows[c].id == id);
    assert(tagtree::row_of(rows, id) == c) by {
        let r = tagtree::row_of(rows, id);
        assert(r > c ==> rows[c].id != rows[r].id);
    }
    let n = rows.len();
    assert(tagtree::anchored(rows, c, n));
    if front.len() == 0 {
        assert(p == 0);
        assert(names =~= seq![name]);
    } else {
        lemma_found_has_path(rows, front, p);
        tagtree::lemma_row_of(rows, p);
        let up = tagtree::row_of(rows, p);
        assert(rows[up].id != 0);
        assert(tagtree::anchored(rows, up, (n - 1) as nat));
        lemma_anchored_ends(rows, up, (n - 1) as nat);
        tagtree::lemma_path_longer(rows, up, (n - 1) as nat, n);
    }
}

/// Some segment of a path is missing: the names before it lead to a tag, and
/// that tag has none of its name below it.
pub open spec fn breaks_off(rows: Seq<TagRow>, parent: i64, names: Seq<Seq<char>>) -> bool {
    exists|k: int|
        #![trigger names.take(k)]
        0 <= k < names.len() && find(rows, parent, names.take(k)) is Some && lookup(
            rows,
            find(rows, parent, names.take(k))->0,
            names[k],
        ) is None
}

proof fn lemma_breaks_off(rows: Seq<TagRow>, parent: i64, names: Seq<Seq<char>>)
    ensures
        find(rows, parent, names) is None <==> breaks_off(rows, parent, names),
    decreases names.len(),
{
    if names.len() > 0 {
        let rest = names.skip(1);
        assert(names.take(0) =~= Seq::<Seq<char>>::empty());
        assert(find(rows, parent, names.take(0)) == Some(parent));
        match lookup(rows, parent, names[0]) {
            None => {},
            Some(next) => {
                lemma_breaks_off(rows, next, rest);
                if breaks_off(rows, next, rest) {
                    let k = choose|k: int|
                        #![trigger rest.take(k)]
                        0 <= k < rest.len() && find(rows, next, rest.take(k)) is Some && lookup(
                            rows,
                            find(rows, next, rest.take(k))->0,
                            rest[k],
                        ) is None;
                    let part = names.take(k + 1);
                    assert(part.skip(1) =~= rest.take(k));
                    assert(part[0] == names[0]);
                    assert(find(rows, parent, part) == find(rows, next, rest.take(k)));
                    assert(names[k + 1] == rest[k]);
                }
                if breaks_off(rows, parent, names) {
                    let k = choose|k: int|
                        #![trigger names.take(k)]
                        0 <= k < names.len() && find(rows, parent, names.take(k)) is Some && lookup(
                            rows,
                            find(rows, parent, names.take(k))->0,
                            names[k],
                        ) is None;
                    assert(k > 0);
                    let part = names.take(k);
                    assert(part.skip(1) =~= rest.take(k - 1));
                    assert(part[0] == names[0]);
                    assert(rest[k - 1] == names[k]);
                    assert(find(rows, parent, part) == find(rows, next, rest.take(k - 1)));
                }
            },
        }
    }
}

/// A path finds a tag of a sound table exactly if the segments of the path, with
/// slashes between them, are the full path of the tag. It finds none exactly if
/// it has no segments or some segment is missing.
pub proof fn law_path_finds_the_tag_it_names(rows: Seq<TagRow>, path: Seq<char>, id: i64)
    requires
        sound(rows),
    ensures
        find_path(rows, path) == Some(id) <==> tags::segments(path).len() > 0 && tagtree::row_of(rows, id) >= 0
            && tagtree::paths_of(rows, seq![id]) == seq![text::join_texts(tags::segments(path), "/"@)],
        find_path(rows, path) is None <==> tags::segments(path).len() == 0 || breaks_off(
            rows,
            0,
            tags::segments(path),
        ),
{
    let names = tags::segments(path);
    let joined = text::join_texts(names, "/"@);
    tagtree::lemma_row_of(rows, id);
    lemma_paths_of_one(rows, id);
    lemma_breaks_off(rows, 0, names);
    if find_path(rows, path) == Some(id) {
        lemma_found_has_path(rows, names, id);
    }
    if names.len() > 0 && tagtree::row_of(rows, id) >= 0 && tagtree::paths_of(rows, seq![id]) == seq![joined] {
        law_path_names_its_tag(rows, id);
        assert(seq![joined][0] == joined);
        reveal_strlit("/");
        assert("/"@ =~= seq!['/']);
        tags::law_split_is_stable(path);
        assert(find_path(rows, joined) == Some(id));
    }
}

proof fn lemma_paths_of_one(rows: Seq<TagRow>, id: i64)
    ensures
        tagtree::paths_of(rows, seq![id]) == (if tagtree::row_of(rows, id) >= 0 {
            seq![tagtree::path_to(rows, tagtree::row_of(rows, id), rows.len())]
        } else {
            Seq::empty()
        }),
{
    reveal_with_fuel(tagtree::paths_of, 2);
    assert(seq![id].drop_last() =~= Seq::<i64>::empty());
    let i = tagtree::row_of(rows, id);
    assert(Seq::<Seq<char>>::empty().push(tagtree::path_to(rows, i, rows.len())) =~= seq![
        tagtree::path_to(rows, i, rows.len()),
    ]);
}

/// The paths of some tags hold the path of each of them.
pub proof fn lemma_paths_hold(rows: Seq<TagRow>, ids: Seq<i64>, id: i64)
    requires
        ids.contains(id),
        tagtree::row_of(rows, id) >= 0,
    ensures
        tagtree::paths_of(rows, seq![id]).len() == 1,
        tagtree::paths_of(rows, ids).contains(tagtree::paths_of(rows, seq![id])[0]),
    decreases ids.len(),
{
    lemma_paths_of_one(rows, id);
    let path = tagtree::paths_of(rows, seq![id])[0];
    let front = ids.drop_last();
    let before = tagtree::paths_of(rows, front);
    let all = tagtree::paths_of(rows, ids);
    if ids.last() == id {
        assert(all.last() == path);
    } else {
        let k = ids.index_of(id);
        assert(front[k] == id);
        lemma_paths_hold(rows, front, id);
        assert(all[before.index_of(path)] == path);
    }
}

/// A tag that is resolved or created by a path has the segments of the path,
/// with slashes between them, as its full path. Every row that was there is kept
/// as it was; the only new rows are those of the segments that were missing. A
/// second call comes to the same tag and adds nothing.
pub proof fn law_resolved_tag_has_the_path(
    before: Seq<TagRow>,
    path: Seq<char>,
    after: Seq<TagRow>,
    id: i64,
    later: Seq<TagRow>,
    again: i64,
)
    requires
        sound(before),
        tags::segments(path).len() > 0,
        creates(before, 0, tags::segments(path), after, id),
        creates(after, 0, tags::segments(path), later, again),
    ensures
        tagtree::paths_of(after, seq![id]) == seq![text::join_texts(tags::segments(path), "/"@)],
        before.len() <= after.len() && after.take(before.len() as int) == before,
        forall|i: int|
            before.len() <= i < after.len() ==> is_missing_prefix(
                before,
                0,
                tags::segments(path),
                after,
                #[trigger] after[i].id,
            ),
        again == id,
        later == after,
{
    let names = tags::segments(path);
    tags::law_segments_are_names(path);
    lemma_creates(before, 0, names, after, id);
    lemma_found_has_path(after, names, id);
    lemma_paths_of_one(after, id);
    law_existing_tag_is_kept(after, 0, names, later, again);
}

/// In a sound table the way up of every tag ends.
pub proof fn law_sound_is_settled(rows: Seq<TagRow>, id: i64)
    requires
        sound(rows),
    ensures
        tagtree::settled(rows, id),
{
    tagtree::lemma_row_of(rows, id);
    let i = tagtree::row_of(rows, id);
    if i >= 0 {
        assert(tagtree::anchored(rows, i, rows.len()));
        lemma_anchored_ends(rows, i, rows.len());
    }
}

proof fn lemma_anchored_ends(rows: Seq<TagRow>, i: int, n: nat)
    requires
        tagtree::anchored(rows, i, n),
    ensures
        tagtree::ends(rows, i, n),
    decreases n,
{
    if rows[i].parent_id != 0 {
        lemma_anchored_ends(rows, tagtree::row_of(rows, rows[i].parent_id), (n - 1) as nat);
    }
}

proof fn lemma_same_ids(a: Seq<TagRow>, b: Seq<TagRow>, id: i64)
    requires
        a.len() == b.len(),
        forall|k: int| 0 <= k < a.len() ==> (#[trigger] a[k]).id == b[k].id,
    ensures
        tagtree::row_of(a, id) == tagtree::row_of(b, id),
    decreases a.len(),
{
    if a.len() > 0 {
        let x = a.drop_last();
        let y = b.drop_last();
        assert forall|k: int| 0 <= k < x.len() implies (#[trigger] x[k]).id == y[k].id by {
            assert(a[k].id == b[k].id);
        }
        lemma_same_ids(x, y, id);
        assert(a[a.len() - 1].id == b[a.len() - 1].id);
    }
}

proof fn lemma_same_anchors(a: Seq<TagRow>, b: Seq<TagRow>, i: int, n: nat)
    requires
        a.len() == b.len(),
        forall|k: int| 0 <= k < a.len() ==> (#[trigger] a[k]).id == b[k].id && a[k].parent_id == b[k].parent_id,
        0 <= i < a.len(),
    ensures
        tagtree::anchored(a, i, n) == tagtree::anchored(b, i, n),
    decreases n,
{
    lemma_same_ids(a, b, a[i].parent_id);
    tagtree::lemma_row_of(a, a[i].parent_id);
    let up = tagtree::row_of(a, a[i].parent_id);
    if n > 0 && up >= 0 {
        lemma_same_anchors(a, b, up, (n - 1) as nat);
    }
}

/// Renaming a tag to a name that can be one, and that no other tag below its
/// parent has, leaves a sound table sound. Every tag keeps its parent.
pub proof fn law_rename_keeps_table_sound(before: Seq<TagRow>, after: Seq<TagRow>, i: int)
    requires
        sound(before),
        0 <= i < before.len(),
        after.len() == before.len(),
        forall|k: int|
            0 <= k < before.len() ==> (#[trigger] after[k]).id == before[k].id && after[k].parent_id
                == before[k].parent_id && (k != i ==> after[k].name@ == before[k].name@),
        tags::valid_name(after[i].name@),
        forall|k: int|
            0 <= k < before.len() && k != i && (#[trigger] before[k]).parent_id == before[i].parent_id ==> before[k].name@
                != after[i].name@,
    ensures
        sound(after),
{
    assert forall|k: int| 0 <= k < after.len() implies tagtree::anchored(after, k, after.len()) by {
        lemma_same_anchors(after, before, k, after.len());
        assert(tagtree::anchored(before, k, before.len()));
    }
    assert forall|a: int, b: int| 0 <= a < b < after.len() implies (#[trigger] after[a]).id != (#[trigger] after[b]).id by {
        assert(before[a].id != before[b].id);
    }
    assert forall|a: int, b: int| 0 <= a < b < after.len() implies !((#[trigger] after[a]).parent_id == (
    #[trigger] after[b]).parent_id && after[a].name@ == after[b].name@) by {
        assert(!(before[a].parent_id == before[b].parent_id && before[a].name@ == before[b].name@));
    }
    assert forall|k: int| 0 <= k < after.len() implies tags::valid_name((#[trigger] after[k]).name@) by {
        assert(tags::valid_name(before[k].name@));
    }
}

/// The tags that the links give to `item`, in the order of the links.
pub open spec fn linked_ids(links: Seq<(String, i64)>, item: Seq<char>) -> Seq<i64>
    decreases links.len(),
{
    if links.len() == 0 {
        Seq::empty()
    } else if links.last().0@ == item {
        linked_ids(links.drop_last(), item).push(links.last().1)
    } else {
        linked_ids(links.drop_last(), item)
    }
}

/// In a sound table, asking for the tags of many items at once gives each item
/// what asking for its tags alone gives.
pub proof fn law_batch_agrees_with_single(rows: Seq<TagRow>, links: Seq<(String, i64)>, item: Seq<char>)
    requires
        sound(rows),
    ensures
        tagtree::linked_paths(rows, links, item) == tagtree::paths_of(rows, linked_ids(links, item)),
    decreases links.len(),
{
    if links.len() > 0 {
        let front = links.drop_last();
        law_batch_agrees_with_single(rows, front, item);
        if links.last().0@ == item {
            let id = links.last().1;
            let ids = linked_ids(front, item);
            assert(ids.push(id).drop_last() =~= ids);
            tagtree::lemma_row_of(rows, id);
            let i = tagtree::row_of(rows, id);
            if i >= 0 {
                assert(tagtree::anchored(rows, i, rows.len()));
            }
        }
    }
}

/// A tag is looked up by its parent and its name, and the last one of the table
/// counts.
pub proof fn law_child_is_looked_up(rows: Seq<TagRow>, parent: i64, name: Seq<char>, k: int)
    requires
        -1 <= k < rows.len(),
        k >= 0 ==> rows[k].parent_id == parent && rows[k].name@ == name,
        forall|j: int| k < j < rows.len() ==> !((#[trigger] rows[j]).parent_id == parent && rows[j].name@ == name),
    ensures
        k >= 0 ==> lookup(rows, parent, name) == Some(rows[k].id),
        k < 0 ==> lookup(rows, parent, name) is None,
{
    lemma_child_at(rows, parent, name);
    let c = child_at(rows, parent, name);
    if c > k {
        assert(!(rows[c].parent_id == parent && rows[c].name@ == name));
    }
}

} // verus!
