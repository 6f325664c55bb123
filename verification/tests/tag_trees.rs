//! Tags: paths, trees, walks, and the checks on changes.
use phoserv::gallery_tags;
use phoserv::models::TagNode;
use phoserv::tags;
use phoserv::tags::{DeleteError, RenameError, Update};
use phoserv::tagtree;
use phoserv::tagtree::TagRow;

fn row(id: i64, name: &str, parent_id: i64) -> TagRow {
    TagRow { id, name: name.to_string(), parent_id }
}

fn table() -> Vec<TagRow> {
    vec![
        row(1, "people", 0),
        row(2, "alice", 1),
        row(3, "trash", 0),
        row(4, "bob", 1),
        row(5, "animals", 0),
        row(6, "trash", 5),
    ]
}

fn outline(nodes: &[TagNode]) -> String {
    let parts: Vec<String> =
        nodes.iter().map(|n| format!("{}:{}:{}[{}]", n.name, n.path, n.count, outline(&n.children))).collect();
    parts.join(" ")
}

#[test]
fn paths_split_into_trimmed_segments() {
    assert_eq!(tags::split_path("people/alice"), vec!["people", "alice"]);
    assert_eq!(tags::split_path(" /people // alice smith /"), vec!["people", "alice smith"]);
    assert!(tags::split_path(" / / ").is_empty());
    assert!(tags::split_path("").is_empty());
}

#[test]
fn joined_segments_split_again() {
    let first = tags::split_path("  a /b// c d ");
    let joined = first.join("/");
    assert_eq!(tags::split_path(&joined), first);
}

#[test]
fn full_paths_start_at_the_top() {
    let rows = table();
    let ids = vec![2, 5, 99, 6];
    assert!(tagtree::all_settled(&rows, &ids));
    assert_eq!(tags::full_paths(&rows, &ids), vec!["people/alice", "animals", "animals/trash"]);
}

#[test]
fn a_missing_ancestor_shortens_a_single_path_and_drops_a_listed_one() {
    let rows = vec![row(2, "b", 7), row(3, "c", 2)];
    assert_eq!(tags::full_paths(&rows, &vec![3]), vec!["b/c"]);
    let photos = vec!["p".to_string()];
    let links = vec![("p".to_string(), 3)];
    let map = tags::tags_for_photos(&rows, &photos, &links);
    assert_eq!(map.get("p"), Some(&Vec::new()));
}

#[test]
fn endless_ways_up_are_noticed() {
    let rows = vec![row(1, "a", 2), row(2, "b", 1), row(3, "c", 0)];
    assert!(!tagtree::all_settled(&rows, &vec![1]));
    assert!(tagtree::all_settled(&rows, &vec![3, 42]));
}

#[test]
fn tags_of_many_photos_follow_the_links() {
    let rows = table();
    let photos = vec!["x".to_string(), "y".to_string(), "z".to_string()];
    let links = vec![("y".to_string(), 4), ("x".to_string(), 5), ("y".to_string(), 2), ("x".to_string(), 77)];
    let map = tags::tags_for_photos(&rows, &photos, &links);
    assert_eq!(map.get("x"), Some(&vec!["animals".to_string()]));
    assert_eq!(map.get("y"), Some(&vec!["people/bob".to_string(), "people/alice".to_string()]));
    assert_eq!(map.get("z"), Some(&Vec::new()));
    assert_eq!(map.get("w"), None);
}

#[test]
fn tags_of_galleries_follow_the_links() {
    let rows = table();
    let map = gallery_tags::tags_for_galleries(&rows, &vec!["g".to_string()], &vec![("g".to_string(), 3)]);
    assert_eq!(map.get("g"), Some(&vec!["trash".to_string()]));
}

#[test]
fn link_queries_have_a_mark_for_each_item() {
    assert_eq!(tags::photo_links_query(3), "SELECT photo_id, tag_id FROM photo_tags WHERE photo_id IN (?,?,?)");
    assert_eq!(
        gallery_tags::gallery_links_query(1),
        "SELECT gallery_id, tag_id FROM gallery_tag_links WHERE gallery_id IN (?)"
    );
}

#[test]
fn tree_is_sorted_and_hides_the_trash() {
    let rows = table();
    assert!(tagtree::is_keyed(&rows));
    let tree = tags::build_tree(&rows, &vec![(1, 9), (2, 4), (1, 5)]);
    assert_eq!(
        outline(&tree),
        "animals:animals:0[trash:animals/trash:0[]] people:people:5[alice:people/alice:4[] bob:people/bob:0[]]"
    );
}

fn ids_in(nodes: &[TagNode], out: &mut Vec<i64>) {
    for n in nodes {
        out.push(n.id);
        ids_in(&n.children, out);
    }
}

#[test]
fn trees_hold_no_tag_twice() {
    let rows = vec![row(1, "a", 0), row(2, "b", 1), row(3, "a", 1), row(4, "b", 3), row(5, "lost", 9), row(6, "b", 0)];
    let nodes = tags::build_tree(&rows, &vec![]);
    let mut ids = Vec::new();
    ids_in(&nodes, &mut ids);
    ids.sort();
    assert_eq!(ids, vec![1, 2, 3, 4, 6]);
}

#[test]
fn gallery_tree_shows_a_trash_tag() {
    let tree = gallery_tags::build_tree(&table(), &vec![]);
    let names: Vec<&str> = tree.iter().map(|n| n.name.as_str()).collect();
    assert_eq!(names, vec!["animals", "people", "trash"]);
}

#[test]
fn tables_with_repeated_or_zero_ids_are_noticed() {
    assert!(!tagtree::is_keyed(&vec![row(1, "a", 0), row(1, "b", 0)]));
    assert!(!tagtree::is_keyed(&vec![row(0, "a", 0)]));
    assert!(tagtree::is_keyed(&vec![]));
}

fn find(rows: &[TagRow], parent: i64, name: &str) -> Option<i64> {
    rows.iter().find(|r| r.parent_id == parent && r.name == name).map(|r| r.id)
}

fn find_path(rows: &[TagRow], path: &str) -> Option<i64> {
    let mut walk = tags::find_by_path(path)?;
    while let Some((parent, name)) = walk.ask() {
        walk.go(find(rows, parent, name)?);
    }
    Some(walk.id())
}

fn create_path(rows: &mut Vec<TagRow>, path: &str) -> Result<i64, String> {
    let mut walk = tags::resolve_or_create(path)?;
    while let Some((parent, name)) = walk.ask() {
        let id = match find(rows, parent, name) {
            Some(id) => id,
            None => {
                let id = 1 + rows.iter().map(|r| r.id).max().unwrap_or(0);
                rows.push(row(id, name, parent));
                id
            }
        };
        walk.go(id);
    }
    Ok(walk.id())
}

#[test]
fn walks_find_tags_by_their_paths() {
    let rows = table();
    assert_eq!(find_path(&rows, "people/bob"), Some(4));
    assert_eq!(find_path(&rows, " people / alice "), Some(2));
    assert_eq!(find_path(&rows, "people/carol"), None);
    assert_eq!(find_path(&rows, "//"), None);
}

#[test]
fn created_tags_are_found_and_not_created_twice() {
    let mut rows = table();
    let n = rows.len();
    let id = create_path(&mut rows, "places/rome/centre").unwrap();
    assert_eq!(rows.len(), n + 3);
    assert_eq!(find_path(&rows, "places/rome/centre"), Some(id));
    assert_eq!(create_path(&mut rows, "places/rome/centre"), Ok(id));
    assert_eq!(rows.len(), n + 3);
    assert_eq!(find_path(&rows, "people/alice"), Some(2));
}

#[test]
fn resolved_tags_have_the_path() {
    let mut rows = table();
    let n = rows.len();
    let id = create_path(&mut rows, " people / carol //friends").unwrap();
    assert_eq!(tags::full_paths(&rows, &vec![id]), vec!["people/carol/friends".to_string()]);
    let kept: Vec<(i64, String, i64)> = table().into_iter().map(|r| (r.id, r.name, r.parent_id)).collect();
    let now: Vec<(i64, String, i64)> = rows[..n].iter().map(|r| (r.id, r.name.clone(), r.parent_id)).collect();
    assert_eq!(now, kept);
    let new: Vec<&str> = rows[n..].iter().map(|r| r.name.as_str()).collect();
    assert_eq!(new, vec!["carol", "friends"]);
    assert_eq!(create_path(&mut rows, "people/carol/friends"), Ok(id));
    assert_eq!(rows.len(), n + 2);
}

#[test]
fn a_found_tag_has_the_path() {
    let rows = table();
    for path in ["people", " people/ alice", "/people/bob/", "alice", "people/people", "x"] {
        let joined = tags::split_path(path).join("/");
        let named: Vec<i64> = rows
            .iter()
            .map(|r| r.id)
            .filter(|id| tags::full_paths(&rows, &vec![*id]) == vec![joined.clone()])
            .collect();
        assert_eq!(find_path(&rows, path), named.first().copied());
        assert!(named.len() <= 1);
    }
}

#[test]
fn every_path_names_its_tag() {
    let rows = table();
    for r in &rows {
        let path = tags::full_paths(&rows, &vec![r.id]).remove(0);
        assert_eq!(find_path(&rows, &path), Some(r.id));
    }
}

#[test]
fn a_path_without_segments_creates_nothing() {
    let mut rows = table();
    assert_eq!(create_path(&mut rows, " / "), Err("tag path must not be empty".to_string()));
    assert!(gallery_tags::resolve_or_create("").is_err());
    assert!(gallery_tags::find_by_path("").is_none());
}

#[test]
fn a_walk_that_is_done_stays() {
    let mut walk = gallery_tags::find_by_path("a").unwrap();
    assert_eq!(walk.ask(), Some((0, "a")));
    walk.go(5);
    assert_eq!(walk.ask(), None);
    walk.go(6);
    assert_eq!(walk.id(), 5);
}

#[test]
fn renames_are_checked() {
    assert_eq!(tags::rename(3, "  cats ").unwrap(), "cats");
    assert!(matches!(tags::rename(3, "  "), Err(RenameError::InvalidName)));
    assert!(matches!(tags::rename(3, "a/b"), Err(RenameError::InvalidName)));
    assert!(matches!(tags::rename(0, "cats"), Err(RenameError::InvalidName)));
    assert!(matches!(gallery_tags::rename(0, "cats"), Err(RenameError::InvalidName)));
}

#[test]
fn rename_outcomes_are_told_apart() {
    assert!(tags::rename_outcome(Update::Changed(1)).is_ok());
    assert!(matches!(tags::rename_outcome(Update::Changed(0)), Err(RenameError::NotFound)));
    assert!(matches!(tags::rename_outcome(Update::Conflict), Err(RenameError::NameConflict)));
    match gallery_tags::rename_outcome(Update::Failed("disk".to_string())) {
        Err(RenameError::Other(m)) => assert_eq!(m, "disk"),
        _ => panic!("expected another error"),
    }
}

#[test]
fn the_trash_tag_is_protected() {
    assert!(matches!(tags::delete(0, None), Err(DeleteError::Protected)));
    assert!(matches!(tags::delete(3, Some(3)), Err(DeleteError::Protected)));
    assert!(tags::delete(4, Some(3)).is_ok());
    assert!(gallery_tags::delete(3).is_ok());
    assert!(matches!(gallery_tags::delete(0), Err(DeleteError::Protected)));
    assert!(matches!(tags::delete_outcome(0), Err(DeleteError::NotFound)));
    assert!(tags::delete_outcome(2).is_ok());
}

fn check_paths(rows: &Vec<TagRow>, nodes: &[TagNode]) -> usize {
    let mut n = 0;
    for node in nodes {
        assert_eq!(tags::full_paths(rows, &vec![node.id]), vec![node.path.clone()]);
        n += 1 + check_paths(rows, &node.children);
    }
    n
}

#[test]
fn tree_paths_are_the_full_paths() {
    let rows = table();
    assert_eq!(check_paths(&rows, &tags::build_tree(&rows, &vec![])), 5);
    assert_eq!(check_paths(&rows, &gallery_tags::build_tree(&rows, &vec![])), 6);
}

#[test]
fn renamed_tags_are_found_under_their_new_path() {
    let mut rows = table();
    rows[1].name = tags::rename(2, " alice b ").unwrap();
    assert_eq!(find_path(&rows, "people/alice b"), Some(2));
    assert_eq!(find_path(&rows, "people/alice"), None);
    for r in &rows {
        let path = tags::full_paths(&rows, &vec![r.id]).remove(0);
        assert_eq!(find_path(&rows, &path), Some(r.id));
    }
}

#[test]
fn single_and_batch_queries_agree() {
    let rows = table();
    let links = vec![("p".to_string(), 6), ("q".to_string(), 1), ("p".to_string(), 88), ("p".to_string(), 2)];
    let map = tags::tags_for_photos(&rows, &vec!["p".to_string()], &links);
    assert_eq!(map.get("p"), Some(&tags::full_paths(&rows, &vec![6, 88, 2])));
}
