//! Galleries: lists, pages and their order.
use phoserv::gallery;
use phoserv::gallery::{Appender, ReorderError};
use phoserv::listing;
use phoserv::models::PhotoRow;
use phoserv::routes::galleries;
use phoserv::routes::tags as tag_routes;
use phoserv::strmap::StrMap;
use phoserv::tags::{DeleteError, RenameError};

fn texts(v: &[&str]) -> Vec<String> {
    v.iter().map(|s| s.to_string()).collect()
}

fn photo_row(id: &str) -> PhotoRow {
    PhotoRow {
        id: id.to_string(),
        hash: String::new(),
        original_filename: String::new(),
        mime_type: String::new(),
        media_type: String::new(),
        file_size: 0,
        width: None,
        height: None,
        duration_bits: None,
        taken_at: None,
        created_at: String::new(),
    }
}

fn summary(id: &str) -> gallery::SummaryRow {
    (id.to_string(), "T".to_string(), None, "2024".to_string(), 2, Some("cover".to_string()))
}

#[test]
fn new_galleries_get_an_identifier() {
    let g = gallery::create("Trip", Some("d".to_string()));
    assert_eq!((g.id.len(), g.title.as_str(), g.description.as_deref()), (36, "Trip", Some("d")));
}

#[test]
fn summaries_carry_their_tags() {
    let mut tags: StrMap<Vec<String>> = StrMap::new();
    tags.insert("b".to_string(), texts(&["x", "y"]));
    let r = gallery::list_summaries(vec![summary("a"), summary("b"), summary("b")], &tags);
    assert_eq!(r.len(), 3);
    assert_eq!((r[0].id.as_str(), r[0].tags.len()), ("a", 0));
    assert_eq!(r[1].tags, texts(&["x", "y"]));
    assert!(r[2].tags.is_empty());
    assert_eq!((r[1].photo_count, r[1].cover_photo_id.as_deref(), r[1].created_at.as_str()), (2, Some("cover"), "2024"));
    assert_eq!(gallery::ids_of(&vec![summary("a"), summary("b")]), texts(&["a", "b"]));
}

#[test]
fn gallery_queries_follow_the_filter() {
    assert_eq!(gallery::list_query(&Some(vec![])), None);
    let all = gallery::list_query(&None).unwrap();
    assert!(all.starts_with("SELECT g.id, g.title"));
    assert!(all.ends_with("gp.gallery_id = g.id GROUP BY g.id ORDER BY g.created_at DESC"));
    let some = gallery::list_query(&Some(vec![1, 2])).unwrap();
    assert!(some.contains("WHERE gt.tag_id IN (?,?) GROUP BY"));
    assert!(gallery::summary_query().ends_with(" WHERE g.id = ? GROUP BY g.id"));
}

#[test]
fn details_hold_the_pages_in_order() {
    let mut tags: StrMap<Vec<String>> = StrMap::new();
    tags.insert("p2".to_string(), texts(&["t"]));
    let row = ("g".to_string(), "T".to_string(), None, "2024".to_string());
    let d = gallery::get_detail(row, vec![photo_row("p2"), photo_row("p1")], &tags, texts(&["gt"]));
    let ids: Vec<&str> = d.photos.iter().map(|p| p.id.as_str()).collect();
    assert_eq!(ids, vec!["p2", "p1"]);
    assert_eq!(d.photos[0].tags, texts(&["t"]));
    assert!(d.photos[1].tags.is_empty());
    assert_eq!(d.tags, texts(&["gt"]));
    assert_eq!(listing::ids_of(&vec![photo_row("z")]), texts(&["z"]));
}

#[test]
fn updates_trim_the_title_alone() {
    assert_eq!(gallery::update(Some("  New "), Some(" d ")), (Some("New".to_string()), Some(" d ".to_string())));
    assert_eq!(gallery::update(None, None), (None, None));
    assert!(gallery::delete(1));
    assert!(!gallery::delete(0));
}

fn add_all(pages: &mut Vec<(String, i64)>, ids: &[&str]) {
    let mut places = Appender::new(pages.iter().map(|p| p.1).max());
    for id in ids {
        let mut written = 0;
        if let Some(place) = places.place() {
            if !pages.iter().any(|p| p.0 == *id) {
                pages.push((id.to_string(), place));
                written = 1;
            }
        }
        places.offered(written);
    }
}

#[test]
fn added_photos_come_last_and_move_none() {
    let mut pages: Vec<(String, i64)> = Vec::new();
    add_all(&mut pages, &["a", "b"]);
    add_all(&mut pages, &["c", "a", "d", "c"]);
    let flat: Vec<(&str, i64)> = pages.iter().map(|p| (p.0.as_str(), p.1)).collect();
    assert_eq!(flat, vec![("a", 1), ("b", 2), ("c", 3), ("d", 4)]);
}

#[test]
fn adding_photos_twice_changes_nothing() {
    let mut pages: Vec<(String, i64)> = vec![("p".to_string(), 3), ("q".to_string(), 9)];
    add_all(&mut pages, &["x", "q", "y", "x"]);
    let once = pages.clone();
    let order: Vec<&str> = once.iter().map(|p| p.0.as_str()).collect();
    assert_eq!(order, vec!["p", "q", "x", "y"]);
    assert!(once.windows(2).all(|w| w[0].1 < w[1].1));
    add_all(&mut pages, &["x", "q", "y", "x"]);
    assert_eq!(pages, once);
}

#[test]
fn places_end_with_the_greatest() {
    let mut pages: Vec<(String, i64)> = vec![("p".to_string(), i64::MAX - 1)];
    add_all(&mut pages, &["p", "x", "y", "x"]);
    assert_eq!(pages, vec![("p".to_string(), i64::MAX - 1), ("x".to_string(), i64::MAX)]);
    let full = pages.clone();
    add_all(&mut pages, &["p", "x", "y", "x"]);
    assert_eq!(pages, full);
    let mut places = Appender::new(Some(i64::MAX));
    assert_eq!(places.place(), None);
    places.offered(1);
    assert_eq!(places.last, i64::MAX);
    assert_eq!(Appender::new(None).place(), Some(1));
}

#[test]
fn reordering_takes_exactly_the_current_photos() {
    let current = texts(&["a", "b", "c"]);
    let r = gallery::reorder(&current, &texts(&["c", "a", "b"])).unwrap();
    assert_eq!(r, vec![("c".to_string(), 1), ("a".to_string(), 2), ("b".to_string(), 3)]);
    for bad in [vec!["a", "b"], vec!["a", "b", "c", "d"], vec!["a", "b", "b"], vec!["a", "a", "b", "c"], vec![]] {
        assert!(matches!(gallery::reorder(&current, &texts(&bad)), Err(ReorderError::Mismatch)));
    }
    assert_eq!(gallery::reorder(&vec![], &vec![]).unwrap().len(), 0);
}

#[test]
fn reordering_through_negatives_never_collides() {
    let mut pages = vec![("a", 1i64), ("b", 2), ("c", 3)];
    let current: Vec<String> = pages.iter().map(|p| p.0.to_string()).collect();
    let new = gallery::reorder(&current, &texts(&["c", "a", "b"])).unwrap();
    for p in pages.iter_mut() {
        p.1 = -p.1;
    }
    for (id, place) in &new {
        for p in pages.iter_mut() {
            if p.0 == id.as_str() {
                p.1 = *place;
            }
        }
        for i in 0..pages.len() {
            for j in 0..i {
                assert_ne!(pages[i].1, pages[j].1);
            }
        }
    }
    assert_eq!(pages, vec![("a", 2), ("b", 3), ("c", 1)]);
}

#[test]
fn titles_are_checked() {
    assert_eq!(galleries::check_title(" a ").unwrap(), "a");
    let e = galleries::check_title("  ").err().unwrap();
    assert_eq!((e.0, e.1.as_str()), (400, "title must not be empty"));
    assert!(galleries::check_new_title(&None).is_ok());
    assert!(galleries::check_new_title(&Some("x".to_string())).is_ok());
    assert_eq!(galleries::check_new_title(&Some(" ".to_string())).err().unwrap().1, "title must not be empty");
}

#[test]
fn gallery_filters_follow_the_tag() {
    assert_eq!(galleries::tag_filter(false, None), None);
    assert_eq!(galleries::tag_filter(true, None), Some(vec![]));
    assert_eq!(galleries::tag_filter(true, Some(vec![4])), Some(vec![4]));
}

#[test]
fn gallery_errors_are_answered() {
    let e = galleries::reorder_error(ReorderError::Mismatch);
    assert_eq!((e.0, e.1.as_str()), (400, "photo_ids must exactly match the gallery's current photos"));
    assert_eq!(galleries::reorder_error(ReorderError::Other("x".to_string())).0, 500);
    assert!(galleries::check_deleted(true).is_ok());
    assert_eq!(galleries::check_deleted(false).err().unwrap().0, 404);
}

#[test]
fn tag_errors_are_answered() {
    let e = tag_routes::rename_error(RenameError::InvalidName);
    assert_eq!((e.0, e.1.as_str()), (400, "tag name must not be empty or contain '/'"));
    assert_eq!(tag_routes::rename_error(RenameError::NotFound).0, 404);
    let e = tag_routes::rename_error(RenameError::NameConflict);
    assert_eq!((e.0, e.1.as_str()), (400, "a tag with that name already exists under the same parent"));
    assert_eq!(tag_routes::rename_error(RenameError::Other("x".to_string())).0, 500);
    let e = tag_routes::delete_error(DeleteError::Protected);
    assert_eq!((e.0, e.1.as_str()), (400, "this tag cannot be deleted"));
    assert_eq!(tag_routes::delete_error(DeleteError::NotFound).0, 404);
    assert_eq!(tag_routes::delete_error(DeleteError::Other("x".to_string())).0, 500);
}
