//! Photos: uploads, lists, deletion, rules and imports.
use phoserv::error::AppError;
use phoserv::ingest;
use phoserv::media::MediaType;
use phoserv::models::PhotoRow;
use phoserv::routes::photos;
use phoserv::routes::photos::{
    BulkDelete, FieldKind, ImportPathBody, ImportPathResponse, ImportStep, ListQuery, ScannedFile, Selection, TagRuleSpec,
    ThumbQuery, UploadForm,
};
use phoserv::rules;
use phoserv::rules::TagRule;
use phoserv::search::{parse, Expr};
use phoserv::strmap::StrMap;
use phoserv::textset;

fn texts(v: &[&str]) -> Vec<String> {
    v.iter().map(|s| s.to_string()).collect()
}

fn photo_row(created_at: &str, id: &str) -> PhotoRow {
    PhotoRow {
        id: id.to_string(),
        hash: String::new(),
        original_filename: String::new(),
        mime_type: String::new(),
        media_type: String::new(),
        file_size: 0,
        width: None,
        height: None,
        duration_bits: Some(4),
        taken_at: None,
        created_at: created_at.to_string(),
    }
}

#[test]
fn upload_forms_are_folded() {
    assert_eq!(photos::field_kind("file"), FieldKind::File);
    assert_eq!(photos::field_kind("tags"), FieldKind::Tag);
    assert_eq!(photos::field_kind(""), FieldKind::Other);
    let mut form = UploadForm::new();
    form.tag(" a ".to_string());
    form.tag("  ".to_string());
    form.file(Some("x.png".to_string()), Some("image/png".to_string()), vec![1]);
    form.file(None, None, vec![2]);
    let u = form.finish().unwrap();
    assert_eq!((u.filename.as_str(), u.content_type, u.bytes, u.tag_paths), ("upload", None, vec![2], texts(&[" a "])));
    let e = UploadForm::new().finish().err().unwrap();
    assert_eq!((e.0, e.1.as_str()), (400, "missing file field"));
}

#[test]
fn page_sizes_are_clamped() {
    assert_eq!(photos::page_limit(None), 50);
    assert_eq!(photos::page_limit(Some(0)), 1);
    assert_eq!(photos::page_limit(Some(-5)), 1);
    assert_eq!(photos::page_limit(Some(17)), 17);
    assert_eq!(photos::page_limit(Some(201)), 200);
    assert_eq!(photos::fetch_limit(200), 201);
}

#[test]
fn cursors_are_read_back() {
    let c = photos::encode_cursor("2024-01-01 10:00", "id|1");
    assert_eq!(c, "2024-01-01 10:00|id|1");
    assert_eq!(photos::decode_cursor(&c).unwrap(), ("2024-01-01 10:00".to_string(), "id|1".to_string()));
    let e = photos::decode_cursor("nothing").err().unwrap();
    assert_eq!((e.0, e.1.as_str()), (400, "invalid cursor"));
}

#[test]
fn trash_view_holds_only_trash() {
    let f = photos::trash_filter(Some(9));
    assert_eq!(
        f.condition,
        "EXISTS (SELECT 1 FROM photo_tags pt_trash WHERE pt_trash.photo_id = p.id AND pt_trash.tag_id = ?)"
    );
    assert_eq!(f.binds, vec![9]);
    let f = photos::trash_filter(None);
    assert_eq!((f.condition.as_str(), f.binds.len()), ("0=1", 0));
}

#[test]
fn list_queries_keep_the_filter_behind_a_cursor() {
    assert_eq!(photos::count_query("0=1"), "SELECT COUNT(*) FROM photos p WHERE 0=1");
    let first = photos::page_query("1=1", false);
    assert!(first.starts_with("SELECT p.id, p.hash, "));
    assert!(first.ends_with(" FROM photos p WHERE 1=1 ORDER BY p.created_at DESC, p.id DESC LIMIT ?"));
    let next = photos::page_query("1=1", true);
    assert!(next.ends_with(
        " WHERE 1=1 AND (created_at < ? OR (created_at = ? AND id < ?)) ORDER BY p.created_at DESC, p.id DESC LIMIT ?"
    ));
    assert_eq!(photos::photos_query(0), None);
    assert!(photos::photos_query(2).unwrap().ends_with(", created_at FROM photos WHERE id IN (?,?)"));
}

#[test]
fn pages_are_cut_and_continue() {
    let all = || vec![photo_row("3", "a"), photo_row("2", "b"), photo_row("2", "a"), photo_row("1", "z")];
    let (page, cursor) = photos::cut_page(all(), 2);
    assert_eq!(page.len(), 2);
    let (created_at, id) = photos::decode_cursor(&cursor.unwrap()).unwrap();
    let rest: Vec<PhotoRow> = all()
        .into_iter()
        .filter(|r| r.created_at < created_at || (r.created_at == created_at && r.id < id))
        .collect();
    let (page, cursor) = photos::cut_page(rest, 2);
    let ids: Vec<(String, String)> = page.iter().map(|r| (r.created_at.clone(), r.id.clone())).collect();
    assert_eq!(ids, vec![("2".to_string(), "a".to_string()), ("1".to_string(), "z".to_string())]);
    assert_eq!(cursor, None);
}

#[test]
fn lists_carry_tags_and_totals() {
    let mut tags: StrMap<Vec<String>> = StrMap::new();
    tags.insert("b".to_string(), texts(&["x"]));
    let r = photos::list(vec![photo_row("2", "a"), photo_row("1", "b")], &tags, 7, 2, Some("c".to_string()));
    assert_eq!((r.total, r.limit, r.next_cursor.as_deref()), (7, 2, Some("c")));
    assert!(r.photos[0].tags.is_empty());
    assert_eq!(r.photos[1].tags, texts(&["x"]));
    assert_eq!(r.photos[1].duration_bits, Some(4));
}

#[test]
fn only_trash_is_deleted() {
    assert!(photos::delete_permanently(&texts(&["a", "trash"])).is_ok());
    let e = photos::delete_permanently(&texts(&["a", "trash/x"])).err().unwrap();
    assert_eq!((e.0, e.1.as_str()), (400, "photo must be moved to trash before it can be permanently deleted"));
}

#[test]
fn bulk_deletion_is_all_or_nothing() {
    let mut bulk = BulkDelete::new();
    let row = BulkDelete::find("p", Some(("h".to_string(), "jpg".to_string()))).unwrap();
    assert!(bulk.accept(row, &texts(&["trash"])).is_ok());
    let e = bulk.accept(("i".to_string(), "png".to_string()), &texts(&["a"])).err().unwrap();
    assert_eq!((e.0, e.1.as_str()), (400, "all photos must be moved to trash before they can be permanently deleted"));
    assert_eq!(bulk.to_delete, vec![("h".to_string(), "jpg".to_string())]);
    let e = BulkDelete::find("q", None).err().unwrap();
    assert_eq!((e.0, e.1.as_str()), (404, "photo not found: q"));
}

#[test]
fn thumbnail_sizes_and_kinds_are_chosen() {
    assert_eq!(photos::thumbnail_size(&ThumbQuery { size: Some("md".to_string()) }), "md");
    assert_eq!(photos::thumbnail_size(&ThumbQuery { size: Some("xl".to_string()) }), "sm");
    assert_eq!(photos::thumbnail_size(&ThumbQuery { size: None }), "sm");
    for kind in [MediaType::Image, MediaType::Video] {
        assert_eq!(photos::stored_media_type(kind.as_str()), kind);
    }
    assert_eq!(photos::stored_media_type("other"), MediaType::Image);
}

fn fields(pairs: &[(&str, &str)]) -> StrMap<String> {
    let mut m = StrMap::new();
    for (k, v) in pairs {
        m.insert(k.to_string(), v.to_string());
    }
    m
}

#[test]
fn templates_are_rendered() {
    let f = fields(&[("year", "2024"), ("x", "{y}")]);
    assert_eq!(rules::render_template("plain }", &f), Ok("plain }".to_string()));
    assert_eq!(rules::render_template("y/{year}/{x}!", &f), Ok("y/2024/{y}!".to_string()));
    assert_eq!(rules::render_template("{year}/{month}/{day", &f), Err("month".to_string()));
    assert_eq!(rules::render_template("{year}/{day", &f), Err("unclosed '{'".to_string()));
    assert_eq!(rules::render_template("{}", &f), Err("".to_string()));
}

#[test]
fn joined_templates_render_one_after_the_other() {
    let f = fields(&[("a", "1"), ("b", "2")]);
    for (x, y) in [("{a}-", "{b}"), ("plain", ""), ("", "{b}!"), ("a}", "b}{a}")] {
        let (rx, ry) = (rules::render_template(x, &f).unwrap(), rules::render_template(y, &f).unwrap());
        assert_eq!(rules::render_template(&format!("{x}{y}"), &f), Ok(format!("{rx}{ry}")));
    }
    assert_eq!(rules::render_template("{a}{gone}", &f), rules::render_template("{gone}", &f));
}

#[test]
fn named_groups_go_before_numbers_and_built_in_fields() {
    let groups = vec![Some("all".to_string()), Some("one".to_string()), None, Some("three".to_string())];
    let names = vec![None, Some("stem".to_string()), Some("gone".to_string()), None];
    let f = rules::fields_for("f.jpg", "f", "dir", &groups, &names);
    assert_eq!(f.get("stem"), Some(&"one".to_string()));
    assert_eq!(f.get("1"), Some(&"one".to_string()));
    assert_eq!(f.get("3"), Some(&"three".to_string()));
    assert_eq!(f.get("filename"), Some(&"f.jpg".to_string()));
    assert_eq!(f.get("parent"), Some(&"dir".to_string()));
    assert_eq!(f.get("0"), None);
    assert_eq!(f.get("2"), None);
    assert_eq!(f.get("gone"), None);
}

#[test]
fn rules_derive_tags_from_paths() {
    let rule = TagRule::new(r"/(?<year>\d{4})/([a-z]+)-", "{year}/{2}/{parent}/{stem}").unwrap();
    assert_eq!(
        rule.apply("/photos/2024/rome-1.jpg", "rome-1.jpg", "rome-1", "2024"),
        Some("2024/rome/2024/rome-1".to_string())
    );
    assert_eq!(rule.apply("/photos/x.jpg", "x.jpg", "x", "photos"), None);
    let rule = TagRule::new("a(b)?", "{1}").unwrap();
    assert_eq!(rule.apply("ac", "", "", ""), None);
    assert_eq!(rule.apply("ab", "", "", ""), Some("b".to_string()));
    assert!(TagRule::new("foo(bar", "").is_err());
    assert_eq!(TagRule::of(Err("too big".to_string()), "{1}").err(), Some("too big".to_string()));
}

#[test]
fn filled_templates_follow_the_groups() {
    let names = vec![None, Some("n".to_string())];
    let groups = Some(vec![Some("whole".to_string()), Some("part".to_string())]);
    assert_eq!(rules::fill("<{n}>", &names, &groups, "", "", ""), Some("<part>".to_string()));
    assert_eq!(rules::fill("<{n}>", &names, &None, "", "", ""), None);
    assert_eq!(rules::fill("<{m}>", &names, &groups, "", "", ""), None);
}

#[test]
fn missing_fields_are_named() {
    let names = vec![None, Some("n".to_string())];
    let groups = Some(vec![Some("whole".to_string()), None]);
    assert_eq!(rules::missing("{stem}/{n}/{m}", &names, &groups, "", "s", ""), Some("n".to_string()));
    assert_eq!(rules::missing("{stem}", &names, &groups, "", "s", ""), None);
    assert_eq!(rules::missing("{n}", &names, &None, "", "s", ""), None);

    let rule = TagRule::new("(?<year>[0-9]{4})", "{year}/{month}").unwrap();
    assert_eq!(rule.template_text(), "{year}/{month}");
    assert_eq!(rule.missing_field("/p/2024/a.jpg", "a.jpg", "a", "2024"), Some("month".to_string()));
    assert_eq!(rule.missing_field("/p/a.jpg", "a.jpg", "a", "p"), None);
    let file = ScannedFile::at("/p/2024/a.jpg");
    assert_eq!(file.missing_field(&rule), Some("month".to_string()));
    assert_eq!(file.rule_tags(&vec![rule]), vec![None]);
    let complete = TagRule::new("(?<year>[0-9]{4})", "{year}/{stem}").unwrap();
    assert_eq!(file.missing_field(&complete), None);
    assert_eq!(file.rule_tags(&vec![complete]), vec![Some("2024/a".to_string())]);
}

#[test]
fn the_first_rule_that_fails_is_reported() {
    let rule = |template: &str| TagRule::new("a", template);
    let kept = photos::collect_rules(vec![rule("x"), rule("y")]).unwrap();
    let templates: Vec<&str> = kept.iter().map(|r| r.template_text()).collect();
    assert_eq!(templates, vec!["x", "y"]);
    assert_eq!(photos::collect_rules(vec![]).map(|r| r.len()).ok(), Some(0));
    let outcomes = vec![rule("x"), Err("first".to_string()), Err("second".to_string()), rule("y")];
    let e = photos::collect_rules(outcomes).err().unwrap();
    assert_eq!((e.0, e.1.as_str()), (400, "invalid tag-rule regex: first"));
}

#[test]
fn rule_lists_are_compiled_or_refused() {
    let good = vec![TagRuleSpec { pattern: "a".to_string(), template: "b".to_string() }];
    assert_eq!(photos::compile_rules(&good).map(|r| r.len()).ok(), Some(1));
    let bad = vec![TagRuleSpec { pattern: "(".to_string(), template: "b".to_string() }];
    let e = photos::compile_rules(&bad).err().unwrap();
    assert_eq!(e.0, 400);
    assert!(e.1.starts_with("invalid tag-rule regex: regex parse error"));
}

#[test]
fn text_sets_are_ascending() {
    let mut set: Vec<String> = Vec::new();
    for t in ["b", "a", "", "b", "ab", "é", "z"] {
        textset::add_text(&mut set, t.to_string());
    }
    assert_eq!(set, texts(&["", "a", "ab", "b", "z", "é"]));
    assert_eq!(textset::sort(&texts(&["b", "a", "b", ""])), texts(&["", "a", "b", "b"]));
}

#[test]
fn import_tags_are_sorted_and_trimmed() {
    let fixed = texts(&[" b ", "a", "", "/fixed/"]);
    let given = vec![Some(" /Rome/ ".to_string()), None, Some("//".to_string()), Some("a".to_string())];
    assert_eq!(photos::tags_for_import(&fixed, &given, false), texts(&["/fixed/", "Rome", "a", "b"]));
    assert_eq!(photos::tags_for_import(&texts(&["B", "a", "b"]), &vec![], true), texts(&["b", "a", "b"]));
    assert!(photos::tags_for_import(&vec![], &vec![], true).is_empty());
}

#[test]
fn scanned_files_are_planned() {
    let rules = vec![TagRule::new(r"/(\d{4})/", "year/{1}").unwrap(), TagRule::new("nothing", "x").unwrap()];
    let file = ScannedFile::at("/import/2024/CAT.JPG");
    assert_eq!((file.stem.as_deref(), file.parent.as_deref()), (Some("CAT"), Some("2024")));
    let plan = file.plan(&texts(&["fixed"]), &rules, false).unwrap();
    assert_eq!(plan.filename, "CAT.JPG");
    assert_eq!(plan.path, "/import/2024/CAT.JPG");
    assert_eq!(plan.tags, texts(&["fixed", "year/2024"]));
    assert!(ScannedFile::at("/import/notes.txt").plan(&vec![], &rules, false).is_none());
    assert!(ScannedFile::at("/import/noext").plan(&vec![], &rules, false).is_none());
    let odd = ScannedFile {
        path: "/import/\u{fffd}.png".to_string(),
        name: None,
        stem: None,
        parent: Some("import".to_string()),
        extension: Some("png".to_string()),
    };
    assert_eq!(odd.plan(&vec![], &vec![], false).unwrap().filename, "upload");
    assert!(photos::has_media_type(&Some("video/mp4".to_string())));
    assert!(!photos::has_media_type(&None));
}

#[test]
fn import_roots_are_absolute() {
    assert!(photos::check_import_root("/a").is_ok());
    let e = photos::check_import_root("a").err().unwrap();
    assert_eq!((e.0, e.1.as_str()), (400, "path must be an absolute filesystem path on the server"));
    assert_eq!(photos::import_root_error("/a", "gone").1, "cannot access path /a: gone");
    assert!(photos::default_true());
}

#[test]
fn import_results_are_collected() {
    let mut answer = ImportPathResponse::new();
    answer.push(photos::dry_run_result("d".to_string(), texts(&["t"])));
    answer.push(photos::error_result("e".to_string(), vec![], "broken".to_string()));
    let outcome = ingest::outcome(photo_row("1", "p"), None, &vec![], vec![]);
    answer.push(photos::ingest_result("u".to_string(), vec![], Ok(outcome)));
    answer.push(photos::ingest_result("f".to_string(), vec![], Err(AppError::bad_request("no"))));
    let statuses: Vec<&str> = answer.results.iter().map(|r| r.status).collect();
    assert_eq!(statuses, vec!["dry_run", "error", "uploaded", "error"]);
    assert_eq!((answer.summary.scanned, answer.summary.uploaded, answer.summary.errors), (4, 1, 2));
    assert_eq!(answer.results[1].error.as_deref(), Some("broken"));
    assert_eq!(answer.results[2].photo_id.as_deref(), Some("p"));
    assert_eq!(answer.results[3].error.as_deref(), Some("no"));
}

fn list_query(q: Option<&str>, cursor: Option<&str>, trash: bool) -> ListQuery {
    ListQuery { q: q.map(|s| s.to_string()), limit: Some(500), cursor: cursor.map(|s| s.to_string()), trash }
}

#[test]
fn list_requests_are_planned() {
    let p = list_query(None, None, false).plan().unwrap();
    assert_eq!((p.limit, p.cursor.is_none()), (200, true));
    assert!(matches!(p.selection, Selection::Search(Expr::All)));
    let p = list_query(Some("((("), Some("t|i"), true).plan().unwrap();
    assert!(matches!(p.selection, Selection::Trash));
    assert_eq!(p.cursor, Some(("t".to_string(), "i".to_string())));
    let e = list_query(Some("((("), Some("bad"), false).plan().err().unwrap();
    assert_eq!((e.0, e.1.as_str()), (400, "invalid cursor"));
    let e = list_query(Some("((("), None, false).plan().err().unwrap();
    assert_eq!(e.0, 400);
    assert_eq!(Some(e.1), parse("(((").err());
}

#[test]
fn search_filters_are_the_conditions_of_the_search() {
    let mut ids: StrMap<Vec<i64>> = StrMap::new();
    ids.insert("a".to_string(), vec![1, 2]);
    let f = photos::search_filter(&parse("a OR b").unwrap(), &ids);
    assert_eq!(f.binds, vec![1, 2]);
    assert!(f.condition.ends_with(" IN (?,?)) OR 0=1)"));
}

/// What a list fetches for a page: the rows behind the cursor, newest first, one
/// more than fit.
fn fetch(table: &[PhotoRow], cursor: Option<&str>, limit: i64) -> Vec<PhotoRow> {
    let cursor = cursor.map(|c| photos::decode_cursor(c).unwrap());
    let mut rows: Vec<PhotoRow> = table
        .iter()
        .filter(|r| match &cursor {
            Some((created_at, id)) => (&r.created_at, &r.id) < (created_at, id),
            None => true,
        })
        .map(|r| photo_row(&r.created_at, &r.id))
        .collect();
    rows.sort_by(|a, b| (&b.created_at, &b.id).cmp(&(&a.created_at, &a.id)));
    rows.truncate(photos::fetch_limit(limit) as usize);
    rows
}

fn ids_of(rows: &[PhotoRow]) -> Vec<String> {
    rows.iter().map(|r| r.id.clone()).collect()
}

#[test]
fn new_photos_change_no_later_page() {
    let mut rows = vec![photo_row("3", "a"), photo_row("2", "m"), photo_row("2", "b"), photo_row("1", "z")];
    let (page, cursor) = photos::cut_page(fetch(&rows, None, 2), 2);
    assert_eq!(ids_of(&page), texts(&["a", "m"]));
    let cursor = cursor.unwrap();
    let (before, _) = photos::cut_page(fetch(&rows, Some(&cursor), 2), 2);
    rows.push(photo_row("4", "new"));
    rows.push(photo_row("2", "n"));
    let (after, _) = photos::cut_page(fetch(&rows, Some(&cursor), 2), 2);
    assert_eq!(ids_of(&before), texts(&["b", "z"]));
    assert_eq!(ids_of(&after), ids_of(&before));
}

#[test]
fn all_pages_hold_every_row_once() {
    let names: Vec<String> = (0..7).map(|i| format!("p{i}")).collect();
    for limit in [1, 2, 3, 7, 8] {
        let mut rows: Vec<PhotoRow> = names.iter().map(|n| photo_row("2", n)).collect();
        let mut seen = Vec::new();
        let mut sizes = Vec::new();
        let mut cursor: Option<String> = None;
        loop {
            let (page, next) = photos::cut_page(fetch(&rows, cursor.as_deref(), limit), limit);
            sizes.push(page.len());
            seen.extend(ids_of(&page));
            rows.push(photo_row("3", &format!("new{}", rows.len())));
            cursor = next;
            if cursor.is_none() {
                break;
            }
        }
        let newest_first: Vec<String> = names.iter().rev().cloned().collect();
        assert_eq!(seen, newest_first);
        let last = sizes.pop().unwrap();
        assert!(last as i64 <= limit && sizes.iter().all(|n| *n as i64 == limit));
    }
    let (page, cursor) = photos::cut_page(fetch(&[], None, 5), 5);
    assert_eq!((page.len(), cursor), (0, None));
}

fn import_body(dry_run: bool) -> ImportPathBody {
    ImportPathBody {
        path: "/import".to_string(),
        recursive: true,
        tags: texts(&["T"]),
        tag_rules: vec![],
        lowercase_tags: true,
        dry_run,
    }
}

#[test]
fn imports_take_a_step_for_each_file() {
    let file = ScannedFile::at("/import/x.png");
    match photos::import_step(&file, &import_body(true), &vec![]) {
        ImportStep::Report(r) => assert_eq!((r.path.as_str(), r.status, r.tags), ("/import/x.png", "dry_run", texts(&["t"]))),
        other => panic!("unexpected step {other:?}"),
    }
    match photos::import_step(&file, &import_body(false), &vec![]) {
        ImportStep::Read(p) => assert_eq!((p.filename.as_str(), p.tags), ("x.png", texts(&["t"]))),
        other => panic!("unexpected step {other:?}"),
    }
    let other = ScannedFile::at("/import/x.txt");
    assert!(matches!(photos::import_step(&other, &import_body(false), &vec![]), ImportStep::Skip));
}
