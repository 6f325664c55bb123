//! Trees of tags: the paths of tags, and the tree that a table of tags makes.
use std::collections::HashMap;
use vstd::prelude::*;

use crate::models::TagNode;
use crate::strmap::StrMap;
use crate::text;

verus! {

/// A row of a table of tags. A tag at the top has the parent 0, which stands
/// for no tag.
#[derive(Debug)]
pub struct TagRow {
    pub id: i64,
    pub name: String,
    pub parent_id: i64,
}

/// The index of the last row with this identifier, or -1.
pub open spec fn row_of(rows: Seq<TagRow>, id: i64) -> int
    decreases rows.len(),
{
    if rows.len() == 0 {
        -1
    } else if rows.last().id == id {
        rows.len() - 1
    } else {
        row_of(rows.drop_last(), id)
    }
}

/// `row_of` is an index of a row with the identifier, and -1 only if there is
/// none.
pub proof fn lemma_row_of(rows: Seq<TagRow>, id: i64)
    ensures
        -1 <= row_of(rows, id) < rows.len(),
        row_of(rows, id) >= 0 ==> rows[row_of(rows, id)].id == id,
        forall|i: int| row_of(rows, id) < i < rows.len() ==> (#[trigger] rows[i]).id != id,
    decreases rows.len(),
{
    if rows.len() > 0 && rows.last().id != id {
        lemma_row_of(rows.drop_last(), id);
        assert forall|i: int| row_of(rows, id) < i < rows.len() implies (#[trigger] rows[i]).id != id by {
            if i < rows.len() - 1 {
                assert(rows.drop_last()[i] == rows[i]);
            }
        }
    }
}

/// Whether `m` gives for each identifier the index of its row.
spec fn indexes(m: Map<i64, usize>, rows: Seq<TagRow>) -> bool {
    forall|id: i64|
        #![trigger m.contains_key(id)]
        (m.contains_key(id) <==> row_of(rows, id) >= 0) && (m.contains_key(id) ==> m[id] == row_of(rows, id))
}

fn index_rows(rows: &Vec<TagRow>) -> (m: HashMap<i64, usize>)
    ensures
        indexes(m@, rows@),
{
    broadcast use vstd::std_specs::hash::group_hash_axioms;

    let mut m: HashMap<i64, usize> = HashMap::new();
    let mut i: usize = 0;
    while i < rows.len()
        invariant
            i <= rows.len(),
            indexes(m@, rows@.take(i as int)),
        decreases rows.len() - i,
    {
        let ghost was = m@;
        m.insert(rows[i].id, i);
        proof {
            let next = rows@.take(i + 1);
            assert(next.drop_last() =~= rows@.take(i as int));
            assert(next.last() == rows@[i as int]);
            assert forall|id: i64| #![trigger m@.contains_key(id)]
                (m@.contains_key(id) <==> row_of(next, id) >= 0) && (m@.contains_key(id) ==> m@[id] == row_of(
                    next,
                    id,
                )) by {
                assert(was.contains_key(id) <==> row_of(rows@.take(i as int), id) >= 0);
            }
        }
        i = i + 1;
    }
    assert(rows@.take(i as int) =~= rows@);
    m
}

/// Whether the way up from row `i`, from each tag to its parent, ends within
/// `n` steps: at the top, or at a parent that is not in the table.
pub open spec fn ends(rows: Seq<TagRow>, i: int, n: nat) -> bool
    decreases n,
{
    let up = row_of(rows, rows[i].parent_id);
    rows[i].parent_id == 0 || up < 0 || (n > 0 && ends(rows, up, (n - 1) as nat))
}

/// Whether the way up from row `i` ends at the top within `n` steps.
pub open spec fn anchored(rows: Seq<TagRow>, i: int, n: nat) -> bool
    decreases n,
{
    let up = row_of(rows, rows[i].parent_id);
    rows[i].parent_id == 0 || (up >= 0 && n > 0 && anchored(rows, up, (n - 1) as nat))
}

/// The names on the way to row `i` from where its way up ends within `n` steps,
/// with slashes between them.
pub open spec fn path_to(rows: Seq<TagRow>, i: int, n: nat) -> Seq<char>
    decreases n,
{
    let up = row_of(rows, rows[i].parent_id);
    if rows[i].parent_id == 0 || up < 0 || n == 0 {
        rows[i].name@
    } else {
        path_to(rows, up, (n - 1) as nat) + "/"@ + rows[i].name@
    }
}

/// Whether a tag, if it is in the table at all, has a way up that ends. No way
/// up passes a row twice, so it has no more steps than there are rows.
pub open spec fn settled(rows: Seq<TagRow>, id: i64) -> bool {
    row_of(rows, id) >= 0 ==> ends(rows, row_of(rows, id), rows.len())
}

/// Whether the way up from row `i` ends within `n` steps.
fn way_ends(rows: &Vec<TagRow>, by_id: &HashMap<i64, usize>, i: usize, n: usize) -> (r: bool)
    requires
        i < rows.len(),
        indexes(by_id@, rows@),
    ensures
        r == ends(rows@, i as int, n as nat),
{
    broadcast use vstd::std_specs::hash::group_hash_axioms;

    let mut node: usize = i;
    let mut left: usize = n;
    while rows[node].parent_id != 0
        invariant
            node < rows.len(),
            indexes(by_id@, rows@),
            ends(rows@, i as int, n as nat) == ends(rows@, node as int, left as nat),
        decreases left,
    {
        proof {
            lemma_row_of(rows@, rows@[node as int].parent_id);
        }
        match by_id.get(&rows[node].parent_id) {
            Some(up) => {
                if left == 0 {
                    return false;
                }
                node = *up;
                left = left - 1;
            },
            None => {
                return true;
            },
        }
    }
    true
}

/// Whether the ways up of all of these tags end.
pub fn all_settled(rows: &Vec<TagRow>, ids: &Vec<i64>) -> (r: bool)
    ensures
        r == forall|j: int| 0 <= j < ids.len() ==> settled(rows@, #[trigger] ids@[j]),
{
    broadcast use vstd::std_specs::hash::group_hash_axioms;

    let by_id = index_rows(rows);
    let mut j: usize = 0;
    while j < ids.len()
        invariant
            j <= ids.len(),
            indexes(by_id@, rows@),
            forall|k: int| 0 <= k < j ==> settled(rows@, #[trigger] ids@[k]),
        decreases ids.len() - j,
    {
        proof {
            lemma_row_of(rows@, ids@[j as int]);
        }
        if let Some(i) = by_id.get(&ids[j]) {
            if !way_ends(rows, &by_id, *i, rows.len()) {
                assert(!settled(rows@, ids@[j as int]));
                return false;
            }
        }
        j = j + 1;
    }
    true
}

/// The path of row `i`, and whether it starts at the top.
fn climb(rows: &Vec<TagRow>, by_id: &HashMap<i64, usize>, i: usize) -> (r: (String, bool))
    requires
        i < rows.len(),
        indexes(by_id@, rows@),
        ends(rows@, i as int, rows.len() as nat),
    ensures
        r.0@ == path_to(rows@, i as int, rows.len() as nat),
        r.1 == anchored(rows@, i as int, rows.len() as nat),
{
    broadcast use vstd::std_specs::hash::group_hash_axioms;

    let ghost all = rows.len() as nat;
    let ghost mut left = all;
    let ghost mut tail = Seq::<char>::empty();
    let mut node: usize = i;
    let mut out = rows[i].name.clone();
    assert(out@ =~= rows@[i as int].name@ + tail);
    assert(path_to(rows@, i as int, all) =~= path_to(rows@, i as int, left) + tail);
    while rows[node].parent_id != 0
        invariant
            node < rows.len(),
            indexes(by_id@, rows@),
            ends(rows@, node as int, left),
            out@ == rows@[node as int].name@ + tail,
            path_to(rows@, i as int, all) == path_to(rows@, node as int, left) + tail,
            anchored(rows@, i as int, all) == anchored(rows@, node as int, left),
            all == rows.len(),
        decreases left,
    {
        proof {
            lemma_row_of(rows@, rows@[node as int].parent_id);
        }
        match by_id.get(&rows[node].parent_id) {
            Some(up) => {
                let mut longer = rows[*up].name.clone();
                longer.append("/");
                longer.append(out.as_str());
                proof {
                    let name = rows@[node as int].name@;
                    let above = path_to(rows@, *up as int, (left - 1) as nat);
                    assert(above + "/"@ + name + tail =~= above + ("/"@ + name + tail));
                    assert(longer@ =~= rows@[*up as int].name@ + ("/"@ + name + tail));
                    tail = "/"@ + name + tail;
                    left = (left - 1) as nat;
                }
                out = longer;
                node = *up;
            },
            None => {
                return (out, false);
            },
        }
    }
    (out, true)
}

/// The paths of those of the tags that are in the table, in their order.
pub open spec fn paths_of(rows: Seq<TagRow>, ids: Seq<i64>) -> Seq<Seq<char>>
    decreases ids.len(),
{
    if ids.len() == 0 {
        Seq::empty()
    } else {
        let before = paths_of(rows, ids.drop_last());
        let i = row_of(rows, ids.last());
        if i >= 0 {
            before.push(path_to(rows, i, rows.len()))
        } else {
            before
        }
    }
}

/// Returns the full "/"-joined paths for a set of tag ids. A tag that is not in
/// the table has none; the path of a tag whose ancestors are not all there
/// starts below the first that is missing.
pub fn full_paths(rows: &Vec<TagRow>, tag_ids: &Vec<i64>) -> (r: Vec<String>)
    requires
        forall|j: int| 0 <= j < tag_ids.len() ==> settled(rows@, #[trigger] tag_ids@[j]),
    ensures
        text::texts(r@) == paths_of(rows@, tag_ids@),
{
    broadcast use vstd::std_specs::hash::group_hash_axioms;

    let by_id = index_rows(rows);
    let mut out: Vec<String> = Vec::new();
    let mut j: usize = 0;
    assert(text::texts(out@) =~= paths_of(rows@, tag_ids@.take(0)));
    while j < tag_ids.len()
        invariant
            j <= tag_ids.len(),
            indexes(by_id@, rows@),
            forall|k: int| 0 <= k < tag_ids.len() ==> settled(rows@, #[trigger] tag_ids@[k]),
            text::texts(out@) == paths_of(rows@, tag_ids@.take(j as int)),
        decreases tag_ids.len() - j,
    {
        let ghost was = out@;
        proof {
            lemma_row_of(rows@, tag_ids@[j as int]);
            assert(tag_ids@.take(j + 1).drop_last() =~= tag_ids@.take(j as int));
            assert(settled(rows@, tag_ids@[j as int]));
        }
        if let Some(i) = by_id.get(&tag_ids[j]) {
            let (path, _top) = climb(rows, &by_id, *i);
            out.push(path);
            assert(text::texts(out@) =~= text::texts(was).push(path@));
        }
        j = j + 1;
    }
    assert(tag_ids@.take(j as int) =~= tag_ids@);
    out
}

/// The path of a tag all of whose ancestors are in the table.
pub open spec fn whole_path(rows: Seq<TagRow>, id: i64) -> Option<Seq<char>> {
    let i = row_of(rows, id);
    if i >= 0 && anchored(rows, i, rows.len()) {
        Some(path_to(rows, i, rows.len()))
    } else {
        None
    }
}

/// The paths that the links of `item` give, in the order of the links.
pub open spec fn linked_paths(rows: Seq<TagRow>, links: Seq<(String, i64)>, item: Seq<char>) -> Seq<Seq<char>>
    decreases links.len(),
{
    if links.len() == 0 {
        Seq::empty()
    } else {
        let before = linked_paths(rows, links.drop_last(), item);
        match whole_path(rows, links.last().1) {
            Some(path) => if links.last().0@ == item {
                before.push(path)
            } else {
                before
            },
            None => before,
        }
    }
}

/// Whether `m` lists for each of `items`, and for each other item that a link
/// gives a path, the paths that the links give it.
pub open spec fn lists_tags(
    rows: Seq<TagRow>,
    items: Seq<Seq<char>>,
    links: Seq<(String, i64)>,
    m: Map<Seq<char>, Vec<String>>,
) -> bool {
    &&& forall|k: Seq<char>| #[trigger]
        m.contains_key(k) <==> items.contains(k) || linked_paths(rows, links, k).len() > 0
    &&& forall|k: Seq<char>| #[trigger] m.contains_key(k) ==> text::texts(m[k]@) == linked_paths(rows, links, k)
}

/// The tags of many items at once, from the whole table and the links between
/// items and tags. A tag whose ancestors are not all in the table is left out.
pub fn tags_for_items(rows: &Vec<TagRow>, items: &Vec<String>, links: &Vec<(String, i64)>) -> (r: StrMap<Vec<String>>)
    requires
        forall|j: int| 0 <= j < links.len() ==> settled(rows@, (#[trigger] links@[j]).1),
    ensures
        lists_tags(rows@, text::texts(items@), links@, r@),
{
    broadcast use vstd::std_specs::hash::group_hash_axioms;

    let by_id = index_rows(rows);
    let mut out: StrMap<Vec<String>> = StrMap::new();
    let ghost names = text::texts(items@);
    let mut i: usize = 0;
    while i < items.len()
        invariant
            i <= items.len(),
            names == text::texts(items@),
            forall|k: Seq<char>| #[trigger] out@.contains_key(k) <==> names.take(i as int).contains(k),
            forall|k: Seq<char>| #[trigger] out@.contains_key(k) ==> out@[k]@.len() == 0,
        decreases items.len() - i,
    {
        proof {
            let name = items@[i as int]@;
            let now = names.take(i as int);
            let next = names.take(i + 1);
            assert(next =~= now.push(name));
            assert forall|k: Seq<char>| #[trigger] next.contains(k) <==> now.contains(k) || k == name by {
                if now.contains(k) {
                    assert(next[now.index_of(k)] == k);
                }
                assert(next[now.len() as int] == name);
            }
        }
        out.insert(items[i].clone(), Vec::new());
        i = i + 1;
    }
    assert(names.take(i as int) =~= names);
    let mut j: usize = 0;
    assert forall|k: Seq<char>| #[trigger] out@.contains_key(k) implies text::texts(out@[k]@) == linked_paths(
        rows@,
        links@.take(0),
        k,
    ) by {
        assert(text::texts(out@[k]@) =~= Seq::<Seq<char>>::empty());
    }
    while j < links.len()
        invariant
            j <= links.len(),
            indexes(by_id@, rows@),
            forall|k: int| 0 <= k < links.len() ==> settled(rows@, (#[trigger] links@[k]).1),
            lists_tags(rows@, names, links@.take(j as int), out@),
        decreases links.len() - j,
    {
        let ghost now = links@.take(j as int);
        let ghost next = links@.take(j + 1);
        let ghost was = out@;
        proof {
            lemma_row_of(rows@, links@[j as int].1);
            assert(next.drop_last() =~= now);
            assert(settled(rows@, links@[j as int].1));
        }
        if let Some(i) = by_id.get(&links[j].1) {
            let (path, top) = climb(rows, &by_id, *i);
            if top {
                let ghost text = path@;
                out.add_to(links[j].0.as_str(), path);
                proof {
                    let item = links@[j as int].0@;
                    assert(linked_paths(rows@, next, item) == linked_paths(rows@, now, item).push(text));
                    assert(was.contains_key(item) || linked_paths(rows@, now, item) =~= Seq::<Seq<char>>::empty());
                    assert forall|k: Seq<char>| #[trigger]
                        out@.contains_key(k) <==> names.contains(k) || linked_paths(rows@, next, k).len() > 0 by {
                        assert(was.contains_key(k) <==> names.contains(k) || linked_paths(rows@, now, k).len() > 0);
                    }
                    assert forall|k: Seq<char>| #[trigger] out@.contains_key(k) implies text::texts(out@[k]@)
                        == linked_paths(rows@, next, k) by {
                        assert(was.contains_key(k) ==> text::texts(was[k]@) == linked_paths(rows@, now, k));
                        if k != item {
                            assert(linked_paths(rows@, next, k) == linked_paths(rows@, now, k));
                        }
                    }
                }
            }
        }
        assert(lists_tags(rows@, names, next, out@));
        j = j + 1;
    }
    assert(links@.take(j as int) =~= links@);
    out
}

/// Whether the rows are those of a table: no two have one identifier, and none
/// has the identifier 0.
pub open spec fn keyed(rows: Seq<TagRow>) -> bool {
    &&& forall|i: int| 0 <= i < rows.len() ==> (#[trigger] rows[i]).id != 0
    &&& forall|i: int, j: int| 0 <= i < j < rows.len() ==> (#[trigger] rows[i]).id != (#[trigger] rows[j]).id
}

/// Whether the rows are those of a table.
pub fn is_keyed(rows: &Vec<TagRow>) -> (r: bool)
    ensures
        r == keyed(rows@),
{
    broadcast use vstd::std_specs::hash::group_hash_axioms;

    let by_id = index_rows(rows);
    let mut i: usize = 0;
    while i < rows.len()
        invariant
            i <= rows.len(),
            indexes(by_id@, rows@),
            forall|k: int| 0 <= k < i ==> (#[trigger] rows@[k]).id != 0 && row_of(rows@, rows@[k].id) == k,
        decreases rows.len() - i,
    {
        proof {
            lemma_row_of(rows@, rows@[i as int].id);
        }
        if rows[i].id == 0 {
            return false;
        }
        match by_id.get(&rows[i].id) {
            Some(k) => {
                if *k != i {
                    assert(rows@[*k as int].id == rows@[i as int].id);
                    return false;
                }
            },
            None => {
                assert(false);
                return false;
            },
        }
        i = i + 1;
    }
    assert forall|a: int, b: int| 0 <= a < b < rows.len() implies (#[trigger] rows@[a]).id != (
    #[trigger] rows@[b]).id by {
        lemma_row_of(rows@, rows@[a].id);
        assert(row_of(rows@, rows@[a].id) == a);
    }
    true
}

/// `level` with `row` put in behind every row whose name is not greater.
pub open spec fn placed(level: Seq<TagRow>, row: TagRow) -> Seq<TagRow>
    decreases level.len(),
{
    if level.len() == 0 || !text::text_lt(row.name@, level.last().name@) {
        level.push(row)
    } else {
        placed(level.drop_last(), row).push(level.last())
    }
}

/// Whether `row` is a child of `parent` that is shown. At the top, the tag that
/// is named `hidden` is not.
pub open spec fn shown(row: TagRow, parent: i64, hidden: Option<Seq<char>>) -> bool {
    row.parent_id == parent && !(parent == 0 && hidden == Some(row.name@))
}

/// The children of `parent` that are shown, by name; those of one name in the
/// order of the table.
pub open spec fn siblings(rows: Seq<TagRow>, parent: i64, hidden: Option<Seq<char>>) -> Seq<TagRow>
    decreases rows.len(),
{
    if rows.len() == 0 {
        Seq::empty()
    } else if shown(rows.last(), parent, hidden) {
        placed(siblings(rows.drop_last(), parent, hidden), rows.last())
    } else {
        siblings(rows.drop_last(), parent, hidden)
    }
}

/// The path of a tag named `name` below the path `above`, which is empty at the
/// top.
pub open spec fn below(above: Seq<char>, name: Seq<char>) -> Seq<char> {
    if above.len() == 0 {
        name
    } else {
        above + "/"@ + name
    }
}

/// The count of a tag: that of the last entry for it, or 0.
pub open spec fn count_for(counts: Seq<(i64, i64)>, id: i64) -> i64
    decreases counts.len(),
{
    if counts.len() == 0 {
        0
    } else if counts.last().0 == id {
        counts.last().1
    } else {
        count_for(counts.drop_last(), id)
    }
}

/// Whether `nodes` are the children of `parent`, whose path is `above`, each
/// with the tree below it.
pub open spec fn is_level(
    rows: Seq<TagRow>,
    counts: Seq<(i64, i64)>,
    hidden: Option<Seq<char>>,
    parent: i64,
    above: Seq<char>,
    nodes: Seq<TagNode>,
) -> bool
    decreases nodes, 0int,
{
    let level = siblings(rows, parent, hidden);
    &&& nodes.len() == level.len()
    &&& forall|i: int|
        0 <= i < nodes.len() ==> is_node(rows, counts, hidden, level[i], above, #[trigger] nodes[i])
}

/// Whether `node` is the tag of `row` with the tree below it, where the path of
/// its parent is `above`.
pub open spec fn is_node(
    rows: Seq<TagRow>,
    counts: Seq<(i64, i64)>,
    hidden: Option<Seq<char>>,
    row: TagRow,
    above: Seq<char>,
    node: TagNode,
) -> bool
    decreases node, 1int,
{
    &&& node.id == row.id
    &&& node.name@ == row.name@
    &&& node.path@ == below(above, row.name@)
    &&& node.count == count_for(counts, row.id)
    &&& is_level(rows, counts, hidden, row.id, below(above, row.name@), node.children@)
}

/// The rows at these indices.
spec fn rows_at(rows: Seq<TagRow>, at: Seq<usize>) -> Seq<TagRow> {
    at.map_values(|k: usize| rows[k as int])
}

/// Puts row `k` into a level behind every row whose name is not greater.
fn place(rows: &Vec<TagRow>, level: &mut Vec<usize>, k: usize)
    requires
        k < rows.len(),
        forall|j: int| 0 <= j < old(level).len() ==> (#[trigger] old(level)@[j]) < rows.len(),
    ensures
        rows_at(rows@, final(level)@) == placed(rows_at(rows@, old(level)@), rows@[k as int]),
        final(level).len() == old(level).len() + 1,
        forall|j: int| 0 <= j < final(level).len() ==> (#[trigger] final(level)@[j]) < rows.len(),
{
    let ghost was = level@;
    let ghost row = rows@[k as int];
    let mut at: usize = level.len();
    let ghost mut behind = Seq::<TagRow>::empty();
    assert(was.take(at as int) =~= was);
    assert(placed(rows_at(rows@, was), row) =~= placed(rows_at(rows@, was.take(at as int)), row) + behind);
    while at > 0 && text::text_less(rows[k].name.as_str(), rows[level[at - 1]].name.as_str())
        invariant
            level@ == was,
            at <= level.len(),
            k < rows.len(),
            row == rows@[k as int],
            forall|j: int| 0 <= j < level.len() ==> (#[trigger] level@[j]) < rows.len(),
            behind == rows_at(rows@, was.skip(at as int)),
            placed(rows_at(rows@, was), row) == placed(rows_at(rows@, was.take(at as int)), row) + behind,
        decreases at,
    {
        proof {
            let now = rows_at(rows@, was.take(at as int));
            let less = rows_at(rows@, was.take(at - 1));
            assert(now.drop_last() =~= less);
            assert(now.last() == rows@[was[at - 1] as int]);
            assert(placed(now, row) == placed(less, row).push(now.last()));
            assert(placed(less, row).push(now.last()) + behind =~= placed(less, row) + (seq![now.last()] + behind));
            assert(rows_at(rows@, was.skip(at - 1)) =~= seq![now.last()] + behind);
            behind = seq![now.last()] + behind;
        }
        at = at - 1;
    }
    proof {
        let now = rows_at(rows@, was.take(at as int));
        if at > 0 {
            assert(now.last() == rows@[was[at - 1] as int]);
        }
        assert(placed(now, row) == now.push(row));
        assert(rows_at(rows@, was.insert(at as int, k)) =~= now.push(row) + behind);
    }
    level.insert(at, k);
}

/// The children of `parent` that are shown, as indices of rows.
fn sibling_rows(rows: &Vec<TagRow>, parent: i64, hidden: Option<&str>) -> (r: Vec<usize>)
    ensures
        rows_at(rows@, r@) == siblings(rows@, parent, text::opt_text(hidden)),
        forall|j: int| 0 <= j < r.len() ==> (#[trigger] r@[j]) < rows.len() && rows@[r@[j] as int].parent_id == parent,
{
    let ghost hide = text::opt_text(hidden);
    let mut level: Vec<usize> = Vec::new();
    let mut i: usize = 0;
    assert(rows_at(rows@, level@) =~= siblings(rows@.take(0), parent, hide));
    while i < rows.len()
        invariant
            i <= rows.len(),
            hide == text::opt_text(hidden),
            rows_at(rows@, level@) == siblings(rows@.take(i as int), parent, hide),
            forall|j: int| 0 <= j < level.len() ==> (#[trigger] level@[j]) < rows.len(),
        decreases rows.len() - i,
    {
        proof {
            assert(rows@.take(i + 1).drop_last() =~= rows@.take(i as int));
        }
        if rows[i].parent_id == parent {
            let hide_it = parent == 0 && match hidden {
                Some(name) => text::same_text(name, rows[i].name.as_str()),
                None => false,
            };
            if !hide_it {
                place(rows, &mut level, i);
            }
        }
        i = i + 1;
    }
    assert(rows@.take(i as int) =~= rows@);
    proof {
        lemma_siblings(rows@, parent, hide);
        assert forall|j: int| 0 <= j < level.len() implies (#[trigger] level@[j]) < rows.len()
            && rows@[level@[j] as int].parent_id == parent by {
            assert(rows_at(rows@, level@)[j] == rows@[level@[j] as int]);
            assert(siblings(rows@, parent, hide).contains(rows_at(rows@, level@)[j]));
        }
    }
    level
}

proof fn lemma_placed(level: Seq<TagRow>, row: TagRow)
    ensures
        placed(level, row).len() == level.len() + 1,
        placed(level, row).to_multiset() == level.to_multiset().insert(row),
        forall|t: TagRow| #[trigger] placed(level, row).contains(t) <==> level.contains(t) || t == row,
    decreases level.len(),
{
    broadcast use vstd::seq_lib::group_to_multiset_ensures;

    if level.len() == 0 || !text::text_lt(row.name@, level.last().name@) {
        level.to_multiset_ensures();
        assert forall|t: TagRow| #[trigger] level.push(row).contains(t) <==> level.contains(t) || t == row by {
            if level.contains(t) {
                assert(level.push(row)[level.index_of(t)] == t);
            }
            assert(level.push(row)[level.len() as int] == row);
        }
    } else {
        let front = level.drop_last();
        lemma_placed(front, row);
        let new = placed(front, row);
        assert(front.push(level.last()) =~= level);
        front.to_multiset_ensures();
        new.to_multiset_ensures();
        assert(placed(level, row).to_multiset() =~= level.to_multiset().insert(row));
        assert forall|t: TagRow| #[trigger] placed(level, row).contains(t) <==> level.contains(t) || t == row by {
            let all = new.push(level.last());
            assert(all == placed(level, row));
            assert(all[new.len() as int] == level.last());
            if new.contains(t) {
                assert(all[new.index_of(t)] == t);
            }
            if level.contains(t) {
                let m = level.index_of(t);
                if m < front.len() {
                    assert(front[m] == t);
                }
            }
            if front.contains(t) {
                assert(level[front.index_of(t)] == t);
            }
            if all.contains(t) {
                let m = all.index_of(t);
                if m < new.len() {
                    assert(new[m] == t);
                }
            }
        }
    }
}

/// The rows of a level are the rows of the table that are shown there.
pub proof fn lemma_siblings(rows: Seq<TagRow>, parent: i64, hidden: Option<Seq<char>>)
    ensures
        forall|t: TagRow| #[trigger]
            siblings(rows, parent, hidden).contains(t) <==> rows.contains(t) && shown(t, parent, hidden),
    decreases rows.len(),
{
    if rows.len() > 0 {
        let front = rows.drop_last();
        let last = rows.last();
        lemma_siblings(front, parent, hidden);
        lemma_placed(siblings(front, parent, hidden), last);
        assert forall|t: TagRow| #[trigger] siblings(rows, parent, hidden).contains(t) <==> rows.contains(t) && shown(
            t,
            parent,
            hidden,
        ) by {
            assert(rows.contains(t) <==> front.contains(t) || t == last) by {
                if rows.contains(t) {
                    let m = rows.index_of(t);
                    if m < front.len() {
                        assert(front[m] == t);
                    }
                }
                if front.contains(t) {
                    assert(rows[front.index_of(t)] == t);
                }
            }
            assert(siblings(front, parent, hidden).contains(t) <==> front.contains(t) && shown(t, parent, hidden));
        }
    }
}

/// The levels are in the order of names.
proof fn lemma_placed_sorted(level: Seq<TagRow>, row: TagRow)
    requires
        forall|a: int, b: int|
            0 <= a < b < level.len() ==> !text::text_lt((#[trigger] level[b]).name@, (#[trigger] level[a]).name@),
    ensures
        forall|a: int, b: int|
            0 <= a < b < placed(level, row).len() ==> !text::text_lt(
                (#[trigger] placed(level, row)[b]).name@,
                (#[trigger] placed(level, row)[a]).name@,
            ),
    decreases level.len(),
{
    let all = placed(level, row);
    if level.len() == 0 || !text::text_lt(row.name@, level.last().name@) {
        assert forall|a: int, b: int| 0 <= a < b < all.len() implies !text::text_lt(
            (#[trigger] all[b]).name@,
            (#[trigger] all[a]).name@,
        ) by {
            if b == level.len() {
                if a < level.len() - 1 && text::text_lt(row.name@, level[a].name@) {
                    text::lemma_lt_total(level[a].name@, level.last().name@);
                    if text::text_lt(level[a].name@, level.last().name@) {
                        text::lemma_lt_transitive(row.name@, level[a].name@, level.last().name@);
                    }
                }
            }
        }
    } else {
        let front = level.drop_last();
        let new = placed(front, row);
        lemma_placed_sorted(front, row);
        lemma_placed(front, row);
        assert forall|a: int, b: int| 0 <= a < b < all.len() implies !text::text_lt(
            (#[trigger] all[b]).name@,
            (#[trigger] all[a]).name@,
        ) by {
            if b == new.len() {
                assert(new.contains(new[a]));
                if new[a] == row {
                    if text::text_lt(level.last().name@, row.name@) {
                        text::lemma_lt_transitive(row.name@, level.last().name@, row.name@);
                        text::lemma_lt_irreflexive(row.name@);
                    }
                } else {
                    let m = front.index_of(new[a]);
                    assert(level[m] == new[a]);
                    assert(!text::text_lt(level[level.len() - 1].name@, level[m].name@));
                }
            } else {
                assert(all[a] == new[a] && all[b] == new[b]);
            }
        }
    }
}

proof fn lemma_siblings_sorted(rows: Seq<TagRow>, parent: i64, hidden: Option<Seq<char>>)
    ensures
        forall|a: int, b: int|
            0 <= a < b < siblings(rows, parent, hidden).len() ==> !text::text_lt(
                (#[trigger] siblings(rows, parent, hidden)[b]).name@,
                (#[trigger] siblings(rows, parent, hidden)[a]).name@,
            ),
    decreases rows.len(),
{
    if rows.len() > 0 {
        lemma_siblings_sorted(rows.drop_last(), parent, hidden);
        lemma_placed_sorted(siblings(rows.drop_last(), parent, hidden), rows.last());
    }
}

proof fn lemma_siblings_multiset(rows: Seq<TagRow>, parent: i64, hidden: Option<Seq<char>>)
    ensures
        siblings(rows, parent, hidden).to_multiset() == rows.to_multiset().filter(
            |t: TagRow| shown(t, parent, hidden),
        ),
    decreases rows.len(),
{
    broadcast use vstd::seq_lib::group_to_multiset_ensures;

    let p = |t: TagRow| shown(t, parent, hidden);
    if rows.len() == 0 {
        assert(rows =~= Seq::<TagRow>::empty());
        assert(siblings(rows, parent, hidden).to_multiset() =~= rows.to_multiset().filter(p));
    } else {
        let front = rows.drop_last();
        lemma_siblings_multiset(front, parent, hidden);
        lemma_placed(siblings(front, parent, hidden), rows.last());
        front.to_multiset_ensures();
        assert(front.push(rows.last()) =~= rows);
        assert(rows.to_multiset() =~= front.to_multiset().insert(rows.last()));
        assert(siblings(rows, parent, hidden).to_multiset() =~= rows.to_multiset().filter(p));
    }
}

/// A level of the tree holds the children that are shown there, each as often as
/// the table holds it, in the order of their names.
pub proof fn law_level_is_sorted(rows: Seq<TagRow>, parent: i64, hidden: Option<Seq<char>>)
    ensures
        siblings(rows, parent, hidden).to_multiset() == rows.to_multiset().filter(
            |t: TagRow| shown(t, parent, hidden),
        ),
        forall|a: int, b: int|
            0 <= a < b < siblings(rows, parent, hidden).len() ==> !text::text_lt(
                (#[trigger] siblings(rows, parent, hidden)[b]).name@,
                (#[trigger] siblings(rows, parent, hidden)[a]).name@,
            ),
{
    lemma_siblings_multiset(rows, parent, hidden);
    lemma_siblings_sorted(rows, parent, hidden);
}

/// Whether `stack` holds the tags from the top down to `parent`, each the parent
/// of the next and none of them twice.
spec fn way_down(rows: Seq<TagRow>, stack: Seq<i64>, parent: i64) -> bool {
    &&& parent == (if stack.len() == 0 {
        0
    } else {
        stack.last()
    })
    &&& stack.no_duplicates()
    &&& forall|k: int| 0 <= k < stack.len() ==> #[trigger] row_of(rows, stack[k]) >= 0
    &&& forall|k: int|
        0 <= k < stack.len() ==> rows[#[trigger] row_of(rows, stack[k])].parent_id == (if k == 0 {
            0
        } else {
            stack[k - 1]
        })
}

/// A way down is no longer than the table.
proof fn lemma_way_is_short(rows: Seq<TagRow>, stack: Seq<i64>, parent: i64)
    requires
        way_down(rows, stack, parent),
    ensures
        stack.len() <= rows.len(),
{
    let ids = rows.map_values(|t: TagRow| t.id);
    stack.unique_seq_to_set();
    ids.lemma_cardinality_of_set();
    assert forall|id: i64| stack.to_set().contains(id) implies ids.to_set().contains(id) by {
        let k = stack.index_of(id);
        assert(stack[k] == id);
        lemma_row_of(rows, id);
        assert(ids[row_of(rows, id)] == id);
    }
    assert(stack.to_set().subset_of(ids.to_set()));
    vstd::set_lib::lemma_len_subset(stack.to_set(), ids.to_set());
}

/// In a table, a child lengthens the way down to its parent.
proof fn lemma_way_to_child(rows: Seq<TagRow>, stack: Seq<i64>, parent: i64, i: int)
    requires
        keyed(rows),
        way_down(rows, stack, parent),
        0 <= i < rows.len(),
        rows[i].parent_id == parent,
    ensures
        way_down(rows, stack.push(rows[i].id), rows[i].id),
        row_of(rows, rows[i].id) == i,
{
    let id = rows[i].id;
    let longer = stack.push(id);
    lemma_row_of(rows, id);
    assert(row_of(rows, id) == i);
    assert forall|k: int| 0 <= k < stack.len() implies stack[k] != id by {
        if stack[k] == id {
            lemma_row_of(rows, stack.last());
            assert(rows[row_of(rows, stack[k])].parent_id == parent);
            if k > 0 {
                assert(stack[k - 1] == stack[stack.len() - 1]);
            } else {
                assert(row_of(rows, stack[stack.len() - 1]) >= 0);
            }
        }
    }
    assert forall|k: int| 0 <= k < longer.len() implies #[trigger] row_of(rows, longer[k]) >= 0 by {
        if k < stack.len() {
            assert(longer[k] == stack[k]);
        }
    }
    assert forall|k: int| 0 <= k < longer.len() implies rows[#[trigger] row_of(rows, longer[k])].parent_id == (if k
        == 0 {
        0
    } else {
        longer[k - 1]
    }) by {
        if k < stack.len() {
            assert(longer[k] == stack[k]);
        }
    }
}

/// Whether `m` gives the count of each tag that has one.
spec fn counted(m: Map<i64, i64>, counts: Seq<(i64, i64)>) -> bool {
    forall|id: i64|
        #![trigger m.contains_key(id)]
        count_for(counts, id) == (if m.contains_key(id) {
            m[id]
        } else {
            0
        })
}

fn index_counts(counts: &Vec<(i64, i64)>) -> (m: HashMap<i64, i64>)
    ensures
        counted(m@, counts@),
{
    broadcast use vstd::std_specs::hash::group_hash_axioms;

    let mut m: HashMap<i64, i64> = HashMap::new();
    let mut i: usize = 0;
    while i < counts.len()
        invariant
            i <= counts.len(),
            counted(m@, counts@.take(i as int)),
        decreases counts.len() - i,
    {
        let ghost was = m@;
        m.insert(counts[i].0, counts[i].1);
        proof {
            let next = counts@.take(i + 1);
            assert(next.drop_last() =~= counts@.take(i as int));
            assert forall|id: i64| #![trigger m@.contains_key(id)] count_for(next, id) == (if m@.contains_key(id) {
                m@[id]
            } else {
                0
            }) by {
                assert(count_for(counts@.take(i as int), id) == (if was.contains_key(id) {
                    was[id]
                } else {
                    0
                }));
            }
        }
        i = i + 1;
    }
    assert(counts@.take(i as int) =~= counts@);
    m
}

fn build(
    rows: &Vec<TagRow>,
    counts: &HashMap<i64, i64>,
    hidden: Option<&str>,
    parent: i64,
    above: &str,
    Ghost(pairs): Ghost<Seq<(i64, i64)>>,
    Ghost(stack): Ghost<Seq<i64>>,
) -> (r: Vec<TagNode>)
    requires
        keyed(rows@),
        counted(counts@, pairs),
        way_down(rows@, stack, parent),
        stack.len() <= rows.len(),
    ensures
        is_level(rows@, pairs, text::opt_text(hidden), parent, above@, r@),
    decreases rows.len() - stack.len(),
{
    broadcast use vstd::std_specs::hash::group_hash_axioms;

    let ghost hide = text::opt_text(hidden);
    let level = sibling_rows(rows, parent, hidden);
    let mut nodes: Vec<TagNode> = Vec::new();
    let mut i: usize = 0;
    while i < level.len()
        invariant
            i <= level.len(),
            nodes.len() == i,
            keyed(rows@),
            counted(counts@, pairs),
            way_down(rows@, stack, parent),
            stack.len() <= rows.len(),
            hide == text::opt_text(hidden),
            rows_at(rows@, level@) == siblings(rows@, parent, hide),
            forall|j: int|
                0 <= j < level.len() ==> (#[trigger] level@[j]) < rows.len() && rows@[level@[j] as int].parent_id
                    == parent,
            forall|j: int|
                0 <= j < i ==> is_node(
                    rows@,
                    pairs,
                    hide,
                    siblings(rows@, parent, hide)[j],
                    above@,
                    #[trigger] nodes@[j],
                ),
        decreases level.len() - i,
    {
        let k: usize = level[i];
        let ghost longer = stack.push(rows@[k as int].id);
        proof {
            lemma_way_to_child(rows@, stack, parent, k as int);
            lemma_way_is_short(rows@, longer, rows@[k as int].id);
            assert(rows_at(rows@, level@)[i as int] == rows@[k as int]);
        }
        let mut path = above.to_owned();
        if above.unicode_len() > 0 {
            path.append("/");
        }
        path.append(rows[k].name.as_str());
        assert(path@ =~= below(above@, rows@[k as int].name@));
        let children = build(rows, counts, hidden, rows[k].id, path.as_str(), Ghost(pairs), Ghost(longer));
        let count: i64 = match counts.get(&rows[k].id) {
            Some(c) => *c,
            None => 0,
        };
        let node = TagNode { id: rows[k].id, name: rows[k].name.clone(), path, count, children };
        assert(is_node(rows@, pairs, hide, siblings(rows@, parent, hide)[i as int], above@, node));
        nodes.push(node);
        i = i + 1;
    }
    assert(is_level(rows@, pairs, hide, parent, above@, nodes@));
    nodes
}

/// The tree of the tags of a table, with the counts that are given for them. At
/// the top, the tag that is named `hidden` is left out with all below it.
pub fn build_tree(rows: &Vec<TagRow>, counts: &Vec<(i64, i64)>, hidden: Option<&str>) -> (r: Vec<TagNode>)
    requires
        keyed(rows@),
    ensures
        is_level(rows@, counts@, text::opt_text(hidden), 0, ""@, r@),
{
    let by_id = index_counts(counts);
    build(rows, &by_id, hidden, 0, "", Ghost(counts@), Ghost(Seq::empty()))
}

/// Whether the way up from row `i` ends within `n` steps at the top, at a tag
/// that is not hidden.
pub open spec fn visible(rows: Seq<TagRow>, i: int, n: nat, hidden: Option<Seq<char>>) -> bool
    decreases n,
{
    let up = row_of(rows, rows[i].parent_id);
    if rows[i].parent_id == 0 {
        hidden != Some(rows[i].name@)
    } else {
        up >= 0 && n > 0 && visible(rows, up, (n - 1) as nat, hidden)
    }
}

/// Whether the tag with this identifier is anywhere in the tree.
pub open spec fn in_tree(nodes: Seq<TagNode>, id: i64) -> bool
    decreases nodes,
{
    exists|i: int| 0 <= i < nodes.len() && ((#[trigger] nodes[i]).id == id || in_tree(nodes[i].children@, id))
}

proof fn lemma_in_level(
    rows: Seq<TagRow>,
    counts: Seq<(i64, i64)>,
    hidden: Option<Seq<char>>,
    parent: i64,
    above: Seq<char>,
    nodes: Seq<TagNode>,
    c: int,
)
    requires
        is_level(rows, counts, hidden, parent, above, nodes),
        0 <= c < rows.len(),
        shown(rows[c], parent, hidden),
    ensures
        in_tree(nodes, rows[c].id),
{
    let level = siblings(rows, parent, hidden);
    lemma_siblings(rows, parent, hidden);
    assert(rows.contains(rows[c]));
    assert(level.contains(rows[c]));
    let k = level.index_of(rows[c]);
    assert(is_node(rows, counts, hidden, level[k], above, nodes[k]));
}

proof fn lemma_child_in_tree(
    rows: Seq<TagRow>,
    counts: Seq<(i64, i64)>,
    hidden: Option<Seq<char>>,
    parent: i64,
    above: Seq<char>,
    nodes: Seq<TagNode>,
    c: int,
)
    requires
        is_level(rows, counts, hidden, parent, above, nodes),
        0 <= c < rows.len(),
        rows[c].parent_id != 0,
        in_tree(nodes, rows[c].parent_id),
    ensures
        in_tree(nodes, rows[c].id),
    decreases nodes,
{
    let p = rows[c].parent_id;
    let level = siblings(rows, parent, hidden);
    let k = choose|k: int| 0 <= k < nodes.len() && ((#[trigger] nodes[k]).id == p || in_tree(nodes[k].children@, p));
    let node = nodes[k];
    assert(is_node(rows, counts, hidden, level[k], above, nodes[k]));
    let path = below(above, level[k].name@);
    if node.id == p {
        lemma_in_level(rows, counts, hidden, p, path, node.children@, c);
    } else {
        lemma_child_in_tree(rows, counts, hidden, node.id, path, node.children@, c);
    }
    assert(in_tree(nodes[k].children@, rows[c].id));
}

proof fn lemma_visible_in_tree(
    rows: Seq<TagRow>,
    counts: Seq<(i64, i64)>,
    hidden: Option<Seq<char>>,
    nodes: Seq<TagNode>,
    i: int,
    n: nat,
)
    requires
        is_level(rows, counts, hidden, 0, ""@, nodes),
        0 <= i < rows.len(),
        visible(rows, i, n, hidden),
    ensures
        in_tree(nodes, rows[i].id),
    decreases n,
{
    if rows[i].parent_id == 0 {
        lemma_in_level(rows, counts, hidden, 0, ""@, nodes, i);
    } else {
        let up = row_of(rows, rows[i].parent_id);
        lemma_row_of(rows, rows[i].parent_id);
        lemma_visible_in_tree(rows, counts, hidden, nodes, up, (n - 1) as nat);
        lemma_child_in_tree(rows, counts, hidden, 0, ""@, nodes, i);
    }
}

proof fn lemma_visible_longer(rows: Seq<TagRow>, i: int, n: nat, m: nat, hidden: Option<Seq<char>>)
    requires
        visible(rows, i, n, hidden),
        n <= m,
    ensures
        visible(rows, i, m, hidden),
    decreases n,
{
    if rows[i].parent_id != 0 {
        lemma_visible_longer(rows, row_of(rows, rows[i].parent_id), (n - 1) as nat, (m - 1) as nat, hidden);
    }
}

/// A way up that ends within `n` steps gives the same path for any more steps.
pub proof fn lemma_path_longer(rows: Seq<TagRow>, i: int, n: nat, m: nat)
    requires
        ends(rows, i, n),
        n <= m,
    ensures
        ends(rows, i, m),
        path_to(rows, i, n) == path_to(rows, i, m),
        anchored(rows, i, n) == anchored(rows, i, m),
    decreases n,
{
    let up = row_of(rows, rows[i].parent_id);
    if rows[i].parent_id != 0 && up >= 0 {
        lemma_path_longer(rows, up, (n - 1) as nat, (m - 1) as nat);
    }
}

proof fn lemma_tree_is_visible(
    rows: Seq<TagRow>,
    counts: Seq<(i64, i64)>,
    hidden: Option<Seq<char>>,
    parent: i64,
    above: Seq<char>,
    nodes: Seq<TagNode>,
    stack: Seq<i64>,
    id: i64,
)
    requires
        keyed(rows),
        is_level(rows, counts, hidden, parent, above, nodes),
        way_down(rows, stack, parent),
        stack.len() > 0 ==> visible(rows, row_of(rows, parent), (stack.len() - 1) as nat, hidden),
        in_tree(nodes, id),
    ensures
        row_of(rows, id) >= 0,
        visible(rows, row_of(rows, id), rows.len(), hidden),
    decreases nodes,
{
    let level = siblings(rows, parent, hidden);
    let k = choose|k: int| 0 <= k < nodes.len() && ((#[trigger] nodes[k]).id == id || in_tree(nodes[k].children@, id));
    assert(is_node(rows, counts, hidden, level[k], above, nodes[k]));
    lemma_siblings(rows, parent, hidden);
    assert(level.contains(level[k]));
    let i = rows.index_of(level[k]);
    lemma_way_to_child(rows, stack, parent, i);
    let longer = stack.push(rows[i].id);
    lemma_way_is_short(rows, longer, rows[i].id);
    if parent != 0 {
        assert(row_of(rows, stack[stack.len() - 1]) >= 0);
    } else if stack.len() > 0 {
        lemma_row_of(rows, stack[stack.len() - 1]);
        assert(row_of(rows, stack[stack.len() - 1]) >= 0);
    }
    assert(visible(rows, i, stack.len(), hidden));
    if nodes[k].id == id {
        lemma_visible_longer(rows, i, stack.len(), rows.len(), hidden);
    } else {
        lemma_tree_is_visible(
            rows,
            counts,
            hidden,
            rows[i].id,
            below(above, rows[i].name@),
            nodes[k].children@,
            longer,
            id,
        );
    }
}

/// The tree holds exactly the tags whose way up ends at the top, at a tag that
/// is not hidden.
pub proof fn law_tree_holds_visible_tags(
    rows: Seq<TagRow>,
    counts: Seq<(i64, i64)>,
    hidden: Option<Seq<char>>,
    nodes: Seq<TagNode>,
    id: i64,
)
    requires
        keyed(rows),
        is_level(rows, counts, hidden, 0, ""@, nodes),
    ensures
        in_tree(nodes, id) <==> row_of(rows, id) >= 0 && visible(rows, row_of(rows, id), rows.len(), hidden),
{
    lemma_row_of(rows, id);
    if in_tree(nodes, id) {
        lemma_tree_is_visible(rows, counts, hidden, 0, ""@, nodes, Seq::empty(), id);
    } else if row_of(rows, id) >= 0 && visible(rows, row_of(rows, id), rows.len(), hidden) {
        lemma_visible_in_tree(rows, counts, hidden, nodes, row_of(rows, id), rows.len());
    }
}

/// How often the tag with this identifier is in the tree.
pub open spec fn times_in(nodes: Seq<TagNode>, id: i64) -> nat
    decreases nodes,
{
    if nodes.len() == 0 {
        0
    } else {
        times_in(nodes.drop_last(), id) + (if nodes.last().id == id {
            1nat
        } else {
            0nat
        }) + times_in(nodes.last().children@, id)
    }
}

proof fn lemma_times_in(nodes: Seq<TagNode>, id: i64)
    ensures
        times_in(nodes, id) > 0 <==> in_tree(nodes, id),
    decreases nodes,
{
    if nodes.len() > 0 {
        let front = nodes.drop_last();
        let last = nodes.last();
        lemma_times_in(front, id);
        lemma_times_in(last.children@, id);
        if in_tree(front, id) {
            let k = choose|k: int|
                0 <= k < front.len() && ((#[trigger] front[k]).id == id || in_tree(front[k].children@, id));
            assert(nodes[k] == front[k]);
        }
        if in_tree(nodes, id) {
            let k = choose|k: int|
                0 <= k < nodes.len() && ((#[trigger] nodes[k]).id == id || in_tree(nodes[k].children@, id));
            if k < front.len() {
                assert(front[k] == nodes[k]);
            }
        }
        assert(nodes[nodes.len() - 1] == last);
    }
}

/// There is one way down to a tag.
proof fn lemma_way_is_unique(rows: Seq<TagRow>, a: Seq<i64>, b: Seq<i64>, id: i64)
    requires
        keyed(rows),
        way_down(rows, a, id),
        way_down(rows, b, id),
        a.len() > 0,
        b.len() > 0,
    ensures
        a == b,
    decreases a.len(),
{
    let x = a.drop_last();
    let y = b.drop_last();
    let up = rows[row_of(rows, id)].parent_id;
    assert(a[a.len() - 1] == id && b[b.len() - 1] == id);
    assert(way_down(rows, x, up)) by {
        assert forall|k: int| 0 <= k < x.len() implies #[trigger] row_of(rows, x[k]) >= 0 by {
            assert(x[k] == a[k]);
        }
        assert forall|k: int| 0 <= k < x.len() implies rows[#[trigger] row_of(rows, x[k])].parent_id == (if k == 0 {
            0
        } else {
            x[k - 1]
        }) by {
            assert(x[k] == a[k]);
        }
    }
    assert(way_down(rows, y, up)) by {
        assert forall|k: int| 0 <= k < y.len() implies #[trigger] row_of(rows, y[k]) >= 0 by {
            assert(y[k] == b[k]);
        }
        assert forall|k: int| 0 <= k < y.len() implies rows[#[trigger] row_of(rows, y[k])].parent_id == (if k == 0 {
            0
        } else {
            y[k - 1]
        }) by {
            assert(y[k] == b[k]);
        }
    }
    if x.len() > 0 && y.len() > 0 {
        lemma_way_is_unique(rows, x, y, up);
    } else if x.len() > 0 {
        assert(row_of(rows, x[x.len() - 1]) >= 0);
        lemma_row_of(rows, up);
    } else if y.len() > 0 {
        assert(row_of(rows, y[y.len() - 1]) >= 0);
        lemma_row_of(rows, up);
    }
    assert(x.push(id) =~= a);
    assert(y.push(id) =~= b);
    assert(x =~= y);
}

/// The rows of a level have identifiers of their own.
proof fn lemma_siblings_apart(rows: Seq<TagRow>, parent: i64, hidden: Option<Seq<char>>, a: int, b: int)
    requires
        keyed(rows),
        0 <= a < b < siblings(rows, parent, hidden).len(),
    ensures
        siblings(rows, parent, hidden)[a].id != siblings(rows, parent, hidden)[b].id,
{
    let level = siblings(rows, parent, hidden);
    lemma_siblings_multiset(rows, parent, hidden);
    lemma_siblings(rows, parent, hidden);
    assert(rows.no_duplicates()) by {
        assert forall|i: int, j: int| 0 <= i < rows.len() && 0 <= j < rows.len() && i != j implies rows[i]
            != rows[j] by {
            if i < j {
                assert(rows[i].id != rows[j].id);
            } else {
                assert(rows[j].id != rows[i].id);
            }
        }
    }
    rows.lemma_multiset_has_no_duplicates();
    assert forall|t: TagRow| level.to_multiset().contains(t) implies level.to_multiset().count(t) == 1 by {
        assert(rows.to_multiset().contains(t));
    }
    level.lemma_multiset_has_no_duplicates_conv();
    assert(level.contains(level[a]) && level.contains(level[b]));
    let i = rows.index_of(level[a]);
    let j = rows.index_of(level[b]);
    assert(rows[i] != rows[j]);
}

/// Whether `way` is the way down to a tag and goes on from `stack` to `next`.
spec fn leads(rows: Seq<TagRow>, stack: Seq<i64>, next: i64, way: Seq<i64>, id: i64) -> bool {
    &&& way_down(rows, way, id)
    &&& way.len() > stack.len()
    &&& way.take(stack.len() as int) == stack
    &&& way[stack.len() as int] == next
}

/// All ways that lead to a tag from one place lead to one tag first.
proof fn lemma_leads_once(rows: Seq<TagRow>, stack: Seq<i64>, a: i64, way_a: Seq<i64>, b: i64, way_b: Seq<i64>, id: i64)
    requires
        keyed(rows),
        leads(rows, stack, a, way_a, id),
        leads(rows, stack, b, way_b, id),
    ensures
        a == b,
        way_a == way_b,
{
    lemma_way_is_unique(rows, way_a, way_b, id);
}

proof fn lemma_leads_through(rows: Seq<TagRow>, stack: Seq<i64>, node: i64, next: i64, way: Seq<i64>, id: i64)
    requires
        leads(rows, stack.push(node), next, way, id),
    ensures
        leads(rows, stack, node, way, id),
        way.len() > stack.len() + 1,
{
    let d = stack.len() as int;
    let longer = stack.push(node);
    assert(way.take(d + 1)[d] == longer[d]);
    assert(way.take(d) =~= way.take(d + 1).take(d));
    assert(longer.take(d) =~= stack);
}

/// A node of a level: the way down to it, and the level below it.
proof fn lemma_node(
    rows: Seq<TagRow>,
    counts: Seq<(i64, i64)>,
    hidden: Option<Seq<char>>,
    parent: i64,
    above: Seq<char>,
    nodes: Seq<TagNode>,
    stack: Seq<i64>,
    k: int,
)
    requires
        keyed(rows),
        is_level(rows, counts, hidden, parent, above, nodes),
        way_down(rows, stack, parent),
        0 <= k < nodes.len(),
    ensures
        way_down(rows, stack.push(nodes[k].id), nodes[k].id),
        leads(rows, stack, nodes[k].id, stack.push(nodes[k].id), nodes[k].id),
        is_level(rows, counts, hidden, nodes[k].id, below(above, nodes[k].name@), nodes[k].children@),
        forall|j: int| 0 <= j < k ==> (#[trigger] nodes[j]).id != nodes[k].id,
{
    let level = siblings(rows, parent, hidden);
    assert(is_node(rows, counts, hidden, level[k], above, nodes[k]));
    lemma_siblings(rows, parent, hidden);
    assert(level.contains(level[k]));
    lemma_way_to_child(rows, stack, parent, rows.index_of(level[k]));
    assert(stack.push(nodes[k].id).take(stack.len() as int) =~= stack);
    assert forall|j: int| 0 <= j < k implies (#[trigger] nodes[j]).id != nodes[k].id by {
        assert(is_node(rows, counts, hidden, level[j], above, nodes[j]));
        lemma_siblings_apart(rows, parent, hidden, j, k);
    }
}

/// Whether a node of a level holds a tag at most once, and only if the way down
/// to the tag leads through it.
spec fn holds_once(rows: Seq<TagRow>, stack: Seq<i64>, node: TagNode, id: i64) -> bool {
    let here: nat = if node.id == id {
        1
    } else {
        0
    };
    let times = here + times_in(node.children@, id);
    &&& times <= 1
    &&& times > 0 ==> exists|way: Seq<i64>| #[trigger] leads(rows, stack, node.id, way, id)
}

/// Nodes with identifiers of their own, each of which holds a tag at most once,
/// together hold it at most once.
proof fn lemma_level_once(rows: Seq<TagRow>, nodes: Seq<TagNode>, stack: Seq<i64>, id: i64) -> (found: int)
    requires
        keyed(rows),
        forall|k: int| 0 <= k < nodes.len() ==> holds_once(rows, stack, #[trigger] nodes[k], id),
        forall|j: int, k: int| 0 <= j < k < nodes.len() ==> (#[trigger] nodes[j]).id != (#[trigger] nodes[k]).id,
    ensures
        times_in(nodes, id) <= 1,
        times_in(nodes, id) > 0 ==> 0 <= found < nodes.len() && exists|way: Seq<i64>| #[trigger]
            leads(rows, stack, nodes[found].id, way, id),
    decreases nodes.len(),
{
    if nodes.len() == 0 {
        0
    } else {
        let k = nodes.len() - 1;
        let front = nodes.drop_last();
        let found = lemma_level_once(rows, front, stack, id);
        assert(holds_once(rows, stack, nodes[k], id));
        if times_in(front, id) > 0 {
            assert(front[found] == nodes[found]);
            if nodes[k].id == id || times_in(nodes[k].children@, id) > 0 {
                let a = choose|way: Seq<i64>| #[trigger] leads(rows, stack, nodes[found].id, way, id);
                let b = choose|way: Seq<i64>| #[trigger] leads(rows, stack, nodes[k].id, way, id);
                lemma_leads_once(rows, stack, nodes[found].id, a, nodes[k].id, b, id);
            }
            found
        } else {
            k
        }
    }
}

/// A level of the tree, with all that is below it, holds no tag twice. If it
/// holds a tag, the way down to the tag leads through it.
proof fn lemma_once(
    rows: Seq<TagRow>,
    counts: Seq<(i64, i64)>,
    hidden: Option<Seq<char>>,
    parent: i64,
    above: Seq<char>,
    nodes: Seq<TagNode>,
    stack: Seq<i64>,
    id: i64,
)
    requires
        keyed(rows),
        is_level(rows, counts, hidden, parent, above, nodes),
        way_down(rows, stack, parent),
    ensures
        times_in(nodes, id) <= 1,
        times_in(nodes, id) > 0 ==> exists|next: i64, way: Seq<i64>| #[trigger] leads(rows, stack, next, way, id),
    decreases nodes,
{
    assert forall|k: int| 0 <= k < nodes.len() implies holds_once(rows, stack, #[trigger] nodes[k], id) by {
        let node = nodes[k];
        let longer = stack.push(node.id);
        lemma_node(rows, counts, hidden, parent, above, nodes, stack, k);
        lemma_once(rows, counts, hidden, node.id, below(above, node.name@), node.children@, longer, id);
        if times_in(node.children@, id) > 0 {
            let (next, way) = choose|next: i64, way: Seq<i64>| #[trigger] leads(rows, longer, next, way, id);
            lemma_leads_through(rows, stack, node.id, next, way, id);
            if node.id == id {
                lemma_leads_once(rows, stack, node.id, way, node.id, longer, id);
            }
        }
    }
    assert forall|j: int, k: int| 0 <= j < k < nodes.len() implies (#[trigger] nodes[j]).id != (
    #[trigger] nodes[k]).id by {
        lemma_node(rows, counts, hidden, parent, above, nodes, stack, k);
    }
    let found = lemma_level_once(rows, nodes, stack, id);
}

/// A tag stands in the tree once if its way up ends at the top, at a tag that is
/// not hidden, and nowhere otherwise.
pub proof fn law_tree_holds_no_tag_twice(
    rows: Seq<TagRow>,
    counts: Seq<(i64, i64)>,
    hidden: Option<Seq<char>>,
    nodes: Seq<TagNode>,
    id: i64,
)
    requires
        keyed(rows),
        is_level(rows, counts, hidden, 0, ""@, nodes),
    ensures
        times_in(nodes, id) == (if row_of(rows, id) >= 0 && visible(rows, row_of(rows, id), rows.len(), hidden) {
            1nat
        } else {
            0nat
        }),
{
    law_tree_holds_visible_tags(rows, counts, hidden, nodes, id);
    lemma_times_in(nodes, id);
    assert(way_down(rows, Seq::empty(), 0));
    lemma_once(rows, counts, hidden, 0, ""@, nodes, Seq::empty(), id);
}

/// Whether every node of the tree has the path of its tag.
pub open spec fn paths_agree(rows: Seq<TagRow>, nodes: Seq<TagNode>) -> bool
    decreases nodes,
{
    forall|i: int|
        0 <= i < nodes.len() ==> whole_path(rows, (#[trigger] nodes[i]).id) == Some(nodes[i].path@) && paths_agree(
            rows,
            nodes[i].children@,
        )
}

/// Whether `above` is the path of the tag at the end of a way down, and empty
/// at the top.
spec fn path_above(rows: Seq<TagRow>, stack: Seq<i64>, parent: i64, above: Seq<char>) -> bool {
    let n = (stack.len() - 1) as nat;
    let p = row_of(rows, parent);
    if stack.len() == 0 {
        above.len() == 0
    } else {
        above.len() > 0 && ends(rows, p, n) && anchored(rows, p, n) && path_to(rows, p, n) == above
    }
}

proof fn lemma_path_below(rows: Seq<TagRow>, stack: Seq<i64>, parent: i64, above: Seq<char>, i: int)
    requires
        keyed(rows),
        0 <= i < rows.len(),
        rows[i].name@.len() > 0,
        rows[i].parent_id == parent,
        way_down(rows, stack, parent),
        path_above(rows, stack, parent, above),
    ensures
        way_down(rows, stack.push(rows[i].id), rows[i].id),
        path_above(rows, stack.push(rows[i].id), rows[i].id, below(above, rows[i].name@)),
        whole_path(rows, rows[i].id) == Some(below(above, rows[i].name@)),
{
    let longer = stack.push(rows[i].id);
    lemma_way_to_child(rows, stack, parent, i);
    lemma_way_is_short(rows, longer, rows[i].id);
    if stack.len() > 0 {
        assert(row_of(rows, stack[stack.len() - 1]) >= 0);
        lemma_row_of(rows, parent);
    }
    lemma_path_longer(rows, i, stack.len(), rows.len());
}

/// A node of a level has the path of its tag, and is the end of the path above
/// the level below it.
proof fn lemma_node_path(
    rows: Seq<TagRow>,
    counts: Seq<(i64, i64)>,
    hidden: Option<Seq<char>>,
    parent: i64,
    above: Seq<char>,
    nodes: Seq<TagNode>,
    stack: Seq<i64>,
    k: int,
)
    requires
        keyed(rows),
        forall|i: int| 0 <= i < rows.len() ==> (#[trigger] rows[i]).name@.len() > 0,
        is_level(rows, counts, hidden, parent, above, nodes),
        way_down(rows, stack, parent),
        path_above(rows, stack, parent, above),
        0 <= k < nodes.len(),
    ensures
        whole_path(rows, nodes[k].id) == Some(nodes[k].path@),
        path_above(rows, stack.push(nodes[k].id), nodes[k].id, below(above, nodes[k].name@)),
{
    let level = siblings(rows, parent, hidden);
    assert(is_node(rows, counts, hidden, level[k], above, nodes[k]));
    lemma_siblings(rows, parent, hidden);
    assert(level.contains(level[k]));
    lemma_path_below(rows, stack, parent, above, rows.index_of(level[k]));
}

proof fn lemma_paths_agree(
    rows: Seq<TagRow>,
    counts: Seq<(i64, i64)>,
    hidden: Option<Seq<char>>,
    parent: i64,
    above: Seq<char>,
    nodes: Seq<TagNode>,
    stack: Seq<i64>,
)
    requires
        keyed(rows),
        forall|i: int| 0 <= i < rows.len() ==> (#[trigger] rows[i]).name@.len() > 0,
        is_level(rows, counts, hidden, parent, above, nodes),
        way_down(rows, stack, parent),
        path_above(rows, stack, parent, above),
    ensures
        paths_agree(rows, nodes),
    decreases nodes,
{
    assert forall|k: int| 0 <= k < nodes.len() implies whole_path(rows, (#[trigger] nodes[k]).id) == Some(
        nodes[k].path@,
    ) && paths_agree(rows, nodes[k].children@) by {
        let node = nodes[k];
        lemma_node(rows, counts, hidden, parent, above, nodes, stack, k);
        lemma_node_path(rows, counts, hidden, parent, above, nodes, stack, k);
        lemma_paths_agree(
            rows,
            counts,
            hidden,
            node.id,
            below(above, node.name@),
            node.children@,
            stack.push(node.id),
        );
    }
}

/// Every node of the tree has the path that its tag has everywhere else, where
/// no tag has an empty name.
pub proof fn law_tree_has_the_paths(
    rows: Seq<TagRow>,
    counts: Seq<(i64, i64)>,
    hidden: Option<Seq<char>>,
    nodes: Seq<TagNode>,
)
    requires
        keyed(rows),
        forall|i: int| 0 <= i < rows.len() ==> (#[trigger] rows[i]).name@.len() > 0,
        is_level(rows, counts, hidden, 0, ""@, nodes),
    ensures
        paths_agree(rows, nodes),
{
    reveal_strlit("");
    lemma_paths_agree(rows, counts, hidden, 0, ""@, nodes, Seq::empty());
}

/// The count of a tag is the one that is given for it; the last, if there are
/// more, and 0 if there is none.
pub proof fn law_count_is_the_one_given(counts: Seq<(i64, i64)>, id: i64, k: int)
    requires
        -1 <= k < counts.len(),
        k >= 0 ==> counts[k].0 == id,
        forall|j: int| k < j < counts.len() ==> (#[trigger] counts[j]).0 != id,
    ensures
        k >= 0 ==> count_for(counts, id) == counts[k].1,
        k < 0 ==> count_for(counts, id) == 0,
    decreases counts.len(),
{
    if counts.len() > 0 && k < counts.len() - 1 {
        assert(counts[counts.len() - 1].0 != id);
        let front = counts.drop_last();
        assert forall|j: int| k < j < front.len() implies (#[trigger] front[j]).0 != id by {
            assert(front[j] == counts[j]);
        }
        law_count_is_the_one_given(front, id, k);
    }
}

/// Whether every node of the tree has the name of its tag and its count.
pub open spec fn nodes_agree(rows: Seq<TagRow>, counts: Seq<(i64, i64)>, nodes: Seq<TagNode>) -> bool
    decreases nodes,
{
    forall|i: int|
        0 <= i < nodes.len() ==> {
            &&& row_of(rows, (#[trigger] nodes[i]).id) >= 0
            &&& rows[row_of(rows, nodes[i].id)].name@ == nodes[i].name@
            &&& nodes[i].count == count_for(counts, nodes[i].id)
            &&& nodes_agree(rows, counts, nodes[i].children@)
        }
}

proof fn lemma_node_agrees(
    rows: Seq<TagRow>,
    counts: Seq<(i64, i64)>,
    hidden: Option<Seq<char>>,
    parent: i64,
    above: Seq<char>,
    nodes: Seq<TagNode>,
    k: int,
)
    requires
        keyed(rows),
        is_level(rows, counts, hidden, parent, above, nodes),
        0 <= k < nodes.len(),
    ensures
        row_of(rows, nodes[k].id) >= 0,
        rows[row_of(rows, nodes[k].id)].name@ == nodes[k].name@,
        rows[row_of(rows, nodes[k].id)].parent_id == parent,
        nodes[k].count == count_for(counts, nodes[k].id),
        is_level(rows, counts, hidden, nodes[k].id, below(above, nodes[k].name@), nodes[k].children@),
{
    let level = siblings(rows, parent, hidden);
    assert(is_node(rows, counts, hidden, level[k], above, nodes[k]));
    lemma_siblings(rows, parent, hidden);
    assert(level.contains(level[k]));
    let i = rows.index_of(level[k]);
    lemma_row_of(rows, rows[i].id);
    let r = row_of(rows, rows[i].id);
    if r > i {
        assert(rows[i].id != rows[r].id);
    }
}

/// Every node of the tree has the name of its tag and the count that is given for
/// it.
pub proof fn law_tree_has_names_and_counts(
    rows: Seq<TagRow>,
    counts: Seq<(i64, i64)>,
    hidden: Option<Seq<char>>,
    parent: i64,
    above: Seq<char>,
    nodes: Seq<TagNode>,
)
    requires
        keyed(rows),
        is_level(rows, counts, hidden, parent, above, nodes),
    ensures
        nodes_agree(rows, counts, nodes),
    decreases nodes,
{
    assert forall|k: int| 0 <= k < nodes.len() implies {
        &&& row_of(rows, (#[trigger] nodes[k]).id) >= 0
        &&& rows[row_of(rows, nodes[k].id)].name@ == nodes[k].name@
        &&& nodes[k].count == count_for(counts, nodes[k].id)
        &&& nodes_agree(rows, counts, nodes[k].children@)
    } by {
        lemma_node_agrees(rows, counts, hidden, parent, above, nodes, k);
        law_tree_has_names_and_counts(
            rows,
            counts,
            hidden,
            nodes[k].id,
            below(above, nodes[k].name@),
            nodes[k].children@,
        );
    }
}

/// The children of a node are the tags whose parent it is: a tag is below the
/// tag that its row names, and nowhere else.
pub proof fn law_children_have_their_parent(
    rows: Seq<TagRow>,
    counts: Seq<(i64, i64)>,
    hidden: Option<Seq<char>>,
    parent: i64,
    above: Seq<char>,
    nodes: Seq<TagNode>,
    i: int,
)
    requires
        keyed(rows),
        is_level(rows, counts, hidden, parent, above, nodes),
        0 <= i < rows.len(),
    ensures
        (exists|k: int| 0 <= k < nodes.len() && (#[trigger] nodes[k]).id == rows[i].id) <==> rows[i].parent_id == parent
            && !(parent == 0 && hidden == Some(rows[i].name@)),
{
    let level = siblings(rows, parent, hidden);
    lemma_siblings(rows, parent, hidden);
    assert(rows.contains(rows[i]));
    if exists|k: int| 0 <= k < nodes.len() && (#[trigger] nodes[k]).id == rows[i].id {
        let k = choose|k: int| 0 <= k < nodes.len() && (#[trigger] nodes[k]).id == rows[i].id;
        assert(is_node(rows, counts, hidden, level[k], above, nodes[k]));
        assert(level.contains(level[k]));
        let j = rows.index_of(level[k]);
        if j < i {
            assert(rows[j].id != rows[i].id);
        } else if i < j {
            assert(rows[i].id != rows[j].id);
        }
    }
    if shown(rows[i], parent, hidden) {
        assert(level.contains(rows[i]));
        let k = level.index_of(rows[i]);
        assert(is_node(rows, counts, hidden, level[k], above, nodes[k]));
        assert(nodes[k].id == rows[i].id);
    }
}

/// The paths of tags are listed in the order of the tags; a tag that is not in
/// the table has none.
pub proof fn law_paths_are_listed_in_order(rows: Seq<TagRow>, a: Seq<i64>, id: i64, b: Seq<i64>)
    ensures
        paths_of(rows, a + b) == paths_of(rows, a) + paths_of(rows, b),
        paths_of(rows, seq![id]).len() == (if exists|i: int| 0 <= i < rows.len() && (#[trigger] rows[i]).id == id {
            1nat
        } else {
            0nat
        }),
        paths_of(rows, seq![id]).len() > 0 ==> paths_of(rows, seq![id])[0] == path_to(
            rows,
            row_of(rows, id),
            rows.len(),
        ),
        paths_of(rows, Seq::empty()).len() == 0,
    decreases b.len(),
{
    if b.len() == 0 {
        assert(a + b =~= a);
        assert(paths_of(rows, a) + paths_of(rows, b) =~= paths_of(rows, a));
    } else {
        assert((a + b).drop_last() =~= a + b.drop_last());
        law_paths_are_listed_in_order(rows, a, id, b.drop_last());
        assert(paths_of(rows, a + b) =~= paths_of(rows, a) + paths_of(rows, b));
    }
    lemma_row_of(rows, id);
    reveal_with_fuel(paths_of, 2);
    assert(seq![id].drop_last() =~= Seq::<i64>::empty());
    if row_of(rows, id) >= 0 {
        assert(rows[row_of(rows, id)].id == id);
    }
}

/// The tags of an item are those that its links give it, in their order, and no
/// link of another item counts.
pub proof fn law_links_give_their_own_item(
    rows: Seq<TagRow>,
    a: Seq<(String, i64)>,
    link: (String, i64),
    b: Seq<(String, i64)>,
    item: Seq<char>,
)
    ensures
        linked_paths(rows, a + b, item) == linked_paths(rows, a, item) + linked_paths(rows, b, item),
        link.0@ != item ==> linked_paths(rows, seq![link], item).len() == 0,
        link.0@ == item && whole_path(rows, link.1) is Some ==> linked_paths(rows, seq![link], item) == seq![
            whole_path(rows, link.1)->0,
        ],
        whole_path(rows, link.1) is None ==> linked_paths(rows, seq![link], item).len() == 0,
    decreases b.len(),
{
    if b.len() == 0 {
        assert(a + b =~= a);
        assert(linked_paths(rows, a, item) + linked_paths(rows, b, item) =~= linked_paths(rows, a, item));
    } else {
        assert((a + b).drop_last() =~= a + b.drop_last());
        law_links_give_their_own_item(rows, a, link, b.drop_last(), item);
        assert(linked_paths(rows, a + b, item) =~= linked_paths(rows, a, item) + linked_paths(rows, b, item));
    }
    reveal_with_fuel(linked_paths, 2);
    assert(seq![link].drop_last() =~= Seq::<(String, i64)>::empty());
    if whole_path(rows, link.1) is Some {
        let path = whole_path(rows, link.1)->0;
        assert(Seq::<Seq<char>>::empty().push(path) =~= seq![path]);
    }
}

/// Every item that was asked for is listed, with or without tags, and every item
/// that a link gives a tag. Each has the tags that its links give it.
pub proof fn law_every_item_is_listed(
    rows: Seq<TagRow>,
    items: Seq<Seq<char>>,
    links: Seq<(String, i64)>,
    m: Map<Seq<char>, Vec<String>>,
    item: Seq<char>,
)
    requires
        lists_tags(rows, items, links, m),
    ensures
        m.contains_key(item) <==> items.contains(item) || linked_paths(rows, links, item).len() > 0,
        m.contains_key(item) ==> text::texts(m[item]@) == linked_paths(rows, links, item),
{
    if m.contains_key(item) {
        let listed = text::texts(m[item]@);
        assert(listed == linked_paths(rows, links, item));
    }
}

/// The path of a tag at the top is its name; that of a tag below another is the
/// path of the other, a slash, and its name. Where the other is not in the table,
/// the path begins with the tag itself.
pub proof fn law_path_goes_through_the_parent(rows: Seq<TagRow>, i: int, n: nat)
    requires
        0 <= i < rows.len(),
    ensures
        rows[i].parent_id == 0 ==> path_to(rows, i, n) == rows[i].name@,
        rows[i].parent_id != 0 && row_of(rows, rows[i].parent_id) >= 0 ==> path_to(rows, i, n + 1) == path_to(
            rows,
            row_of(rows, rows[i].parent_id),
            n,
        ) + seq!['/'] + rows[i].name@,
        row_of(rows, rows[i].parent_id) < 0 ==> path_to(rows, i, n) == rows[i].name@,
{
    reveal_strlit("/");
    assert("/"@ =~= seq!['/']);
}

/// The row of a tag is the last one with its identifier.
pub proof fn law_row_has_the_id(rows: Seq<TagRow>, id: i64, k: int)
    requires
        -1 <= k < rows.len(),
        k >= 0 ==> rows[k].id == id,
        forall|j: int| k < j < rows.len() ==> (#[trigger] rows[j]).id != id,
    ensures
        row_of(rows, id) == k,
{
    lemma_row_of(rows, id);
    if row_of(rows, id) > k {
        assert(rows[row_of(rows, id)].id != id);
    }
}

proof fn lemma_anchored_longer(rows: Seq<TagRow>, i: int, n: nat, m: nat)
    requires
        anchored(rows, i, n),
        n <= m,
    ensures
        anchored(rows, i, m),
        path_to(rows, i, m) == path_to(rows, i, n),
    decreases n,
{
    if rows[i].parent_id != 0 {
        lemma_anchored_longer(rows, row_of(rows, rows[i].parent_id), (n - 1) as nat, (m - 1) as nat);
    }
}

/// The way from the top down to a tag whose ancestors are all there.
proof fn lemma_way_of(rows: Seq<TagRow>, i: int, n: nat) -> (way: Seq<i64>)
    requires
        keyed(rows),
        0 <= i < rows.len(),
        anchored(rows, i, n),
    ensures
        way.len() > 0,
        way_down(rows, way, rows[i].id),
    decreases n,
{
    if rows[i].parent_id == 0 {
        let top = Seq::<i64>::empty();
        lemma_way_to_child(rows, top, 0, i);
        top.push(rows[i].id)
    } else {
        let up = row_of(rows, rows[i].parent_id);
        lemma_row_of(rows, rows[i].parent_id);
        let above = lemma_way_of(rows, up, (n - 1) as nat);
        lemma_way_to_child(rows, above, rows[i].parent_id, i);
        above.push(rows[i].id)
    }
}

/// A tag is reached from the top in as many steps as its way is long.
proof fn lemma_way_anchors(rows: Seq<TagRow>, way: Seq<i64>, id: i64)
    requires
        way.len() > 0,
        way_down(rows, way, id),
    ensures
        anchored(rows, row_of(rows, id), (way.len() - 1) as nat),
    decreases way.len(),
{
    assert(way[way.len() - 1] == id);
    if way.len() > 1 {
        let above = way.drop_last();
        assert forall|k: int| 0 <= k < above.len() implies #[trigger] row_of(rows, above[k]) >= 0 by {
            assert(above[k] == way[k]);
        }
        assert forall|k: int| 0 <= k < above.len() implies rows[#[trigger] row_of(rows, above[k])].parent_id == (if k == 0 {
            0
        } else {
            above[k - 1]
        }) by {
            assert(above[k] == way[k]);
        }
        lemma_way_anchors(rows, above, above.last());
        lemma_row_of(rows, above.last());
        assert(rows[row_of(rows, way[way.len() - 1])].parent_id == way[way.len() - 2]);
        assert(row_of(rows, way[way.len() - 2]) >= 0);
    }
}

/// The whole path of a tag at the top is its name; that of a tag below another
/// is the whole path of the other, a slash, and its name. A tag below one that
/// has no whole path, or is not in the table, has none.
pub proof fn law_whole_path_goes_to_the_top(rows: Seq<TagRow>, i: int)
    requires
        keyed(rows),
        0 <= i < rows.len(),
    ensures
        rows[i].parent_id == 0 ==> whole_path(rows, rows[i].id) == Some(rows[i].name@),
        rows[i].parent_id != 0 ==> whole_path(rows, rows[i].id) == (match whole_path(rows, rows[i].parent_id) {
            Some(above) => Some(above + seq!['/'] + rows[i].name@),
            None => None,
        }),
{
    reveal_strlit("/");
    assert("/"@ =~= seq!['/']);
    let n = rows.len();
    let less = (n - 1) as nat;
    law_row_has_the_id(rows, rows[i].id, i);
    if rows[i].parent_id != 0 {
        let up = row_of(rows, rows[i].parent_id);
        lemma_row_of(rows, rows[i].parent_id);
        if up >= 0 && anchored(rows, up, n) {
            let above = lemma_way_of(rows, up, n);
            lemma_way_to_child(rows, above, rows[i].parent_id, i);
            let way = above.push(rows[i].id);
            lemma_way_is_short(rows, way, rows[i].id);
            lemma_way_anchors(rows, above, rows[i].parent_id);
            lemma_anchored_longer(rows, up, (above.len() - 1) as nat, less);
        }
        if up >= 0 && anchored(rows, up, less) {
            lemma_anchored_longer(rows, up, less, n);
        }
    }
}

/// A tag that is not in the table has no whole path.
pub proof fn law_unknown_tag_has_no_path(rows: Seq<TagRow>, id: i64)
    requires
        forall|i: int| 0 <= i < rows.len() ==> (#[trigger] rows[i]).id != id,
    ensures
        whole_path(rows, id) is None,
{
    law_row_has_the_id(rows, id, -1);
}

/// Tags with the same parent are listed in the order of their names.
pub proof fn law_children_are_in_order(
    rows: Seq<TagRow>,
    counts: Seq<(i64, i64)>,
    hidden: Option<Seq<char>>,
    parent: i64,
    above: Seq<char>,
    nodes: Seq<TagNode>,
    a: int,
    b: int,
)
    requires
        is_level(rows, counts, hidden, parent, above, nodes),
        0 <= a < b < nodes.len(),
    ensures
        !text::text_lt(nodes[b].name@, nodes[a].name@),
{
    let level = siblings(rows, parent, hidden);
    lemma_siblings_sorted(rows, parent, hidden);
    assert(is_node(rows, counts, hidden, level[a], above, nodes[a]));
    assert(is_node(rows, counts, hidden, level[b], above, nodes[b]));
}

/// A table is keyed exactly if no identifier in it is 0 and none is there twice.
pub proof fn law_keyed_table(rows: Seq<TagRow>)
    ensures
        keyed(rows) <==> {
            &&& forall|i: int| 0 <= i < rows.len() ==> (#[trigger] rows[i]).id != 0
            &&& rows.map_values(|row: TagRow| row.id).no_duplicates()
        },
{
    let ids = rows.map_values(|row: TagRow| row.id);
    if keyed(rows) {
        assert forall|i: int, j: int| 0 <= i < ids.len() && 0 <= j < ids.len() && i != j implies ids[i] != ids[j] by {
            if i < j {
                assert(rows[i].id != rows[j].id);
            } else {
                assert(rows[j].id != rows[i].id);
            }
        }
    }
    if ids.no_duplicates() {
        assert forall|i: int, j: int| 0 <= i < j < rows.len() implies (#[trigger] rows[i]).id != (#[trigger] rows[j]).id by {
            assert(ids[i] != ids[j]);
        }
    }
}

/// A way up ends at the top and where a tag is not in the table.
pub proof fn law_way_up_ends(rows: Seq<TagRow>, i: int)
    requires
        keyed(rows),
        0 <= i < rows.len(),
        rows[i].parent_id == 0 || forall|j: int| 0 <= j < rows.len() ==> (#[trigger] rows[j]).id != rows[i].parent_id,
    ensures
        settled(rows, rows[i].id),
{
    law_row_has_the_id(rows, rows[i].id, i);
    if rows[i].parent_id != 0 {
        law_row_has_the_id(rows, rows[i].parent_id, -1);
    }
}

} // verus!
