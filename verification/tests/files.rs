//! Storage, media, ingestion, configuration and authorisation.
use phoserv::auth::require_token;
use phoserv::config::{default_host, Config, ConfigError, LibraryConfig};
use phoserv::error::{found, AppError};
use phoserv::ids::new_id;
use phoserv::ingest;
use phoserv::ingest::{FileResult, ImportSummary, Incoming, Lookup, Tagging};
use phoserv::media;
use phoserv::media::{FfprobeFormat, FfprobeOutput, FfprobeStream, MediaType, ProbeResult};
use phoserv::models::{Photo, PhotoRow};
use phoserv::paths;
use phoserv::storage;
use phoserv::strmap::StrMap;
use phoserv::tags;

fn some(s: &str) -> Option<String> {
    Some(s.to_string())
}

fn texts(v: &[&str]) -> Vec<String> {
    v.iter().map(|s| s.to_string()).collect()
}

fn photo_row(id: &str) -> PhotoRow {
    PhotoRow {
        id: id.to_string(),
        hash: "abcd".to_string(),
        original_filename: "cat.jpg".to_string(),
        mime_type: "image/jpeg".to_string(),
        media_type: "image".to_string(),
        file_size: 3,
        width: Some(4),
        height: Some(5),
        duration_bits: None,
        taken_at: None,
        created_at: "2024-01-01".to_string(),
    }
}

#[test]
fn originals_and_thumbnails_are_sharded() {
    assert!(storage::can_shard("abcd1234"));
    assert_eq!(storage::shard_dir("/lib", "abcd1234"), "/lib/ab/cd");
    assert_eq!(storage::original_path("/lib", "abcd1234", "jpg"), "/lib/originals/ab/cd/abcd1234.jpg");
    assert_eq!(storage::thumbnail_path("/lib/", "abcd1234", "sm"), "/lib/thumbnails/ab/cd/abcd1234_sm.jpg");
    assert_eq!(
        storage::thumbnail_paths("/lib", "abcd"),
        vec!["/lib/thumbnails/ab/cd/abcd_sm.jpg", "/lib/thumbnails/ab/cd/abcd_md.jpg"]
    );
}

#[test]
fn shards_end_between_characters() {
    assert!(!storage::can_shard("abc"));
    assert!(!storage::can_shard("aébc"));
    assert!(storage::can_shard("éé"));
    assert_eq!(storage::shard_dir("r", "ééx"), "r/é/é");
    assert!(!storage::can_shard(""));
}

#[test]
fn paths_have_the_components_of_unix_paths() {
    assert_eq!(paths::components_of("/a//b/./c/"), vec!["/", "a", "b", "c"]);
    assert_eq!(paths::components_of("./a/../b"), vec![".", "a", "..", "b"]);
    assert_eq!(paths::file_name("/a/b.txt/"), Some("b.txt"));
    assert_eq!(paths::file_name("/a/.."), None);
    assert_eq!(paths::parent_file_name("/a/b/c"), Some("b"));
    assert_eq!(paths::extension("x/archive.tar.gz"), Some("gz"));
    assert_eq!(paths::extension(".bashrc"), None);
    assert_eq!(paths::extension("name."), Some(""));
    assert_eq!(paths::file_stem("x/archive.tar.gz"), Some("archive.tar"));
    assert_eq!(paths::join("/a", "/b"), "/b");
    assert_eq!(paths::join("/a", "b"), "/a/b");
    assert!(paths::starts_with("/tmp/x/y", "/tmp/x/"));
    assert!(!paths::starts_with("/tmp/xy", "/tmp/x"));
}

#[test]
fn media_types_go_by_the_main_type() {
    assert_eq!(MediaType::from_mime("image/png"), Some(MediaType::Image));
    assert_eq!(MediaType::from_mime("video/mp4"), Some(MediaType::Video));
    assert_eq!(MediaType::from_mime("application/pdf"), None);
    assert_eq!(MediaType::from_mime("Image/png"), None);
    assert_eq!(MediaType::Image.as_str(), "image");
    assert_eq!(MediaType::Video.as_str(), "video");
}

fn tag_map(pairs: &[(&str, &str)]) -> StrMap<String> {
    let mut m = StrMap::new();
    for (k, v) in pairs {
        m.insert(k.to_string(), v.to_string());
    }
    m
}

#[test]
fn time_of_capture_prefers_the_first_key() {
    assert_eq!(media::find_taken_at(&tag_map(&[("date", "d"), ("creation_time", "c")])), some("c"));
    assert_eq!(media::find_taken_at(&tag_map(&[("datetimeoriginal", "x"), ("date", "d")])), some("x"));
    assert_eq!(media::find_taken_at(&tag_map(&[("com.apple.quicktime.creationdate", "q")])), some("q"));
    assert_eq!(media::find_taken_at(&tag_map(&[("title", "t")])), None);
}

fn stream(width: Option<i64>, height: Option<i64>, tags: Option<StrMap<String>>) -> FfprobeStream {
    FfprobeStream { width, height, tags }
}

#[test]
fn probe_takes_the_first_sized_stream() {
    let report = FfprobeOutput {
        streams: vec![
            stream(None, Some(1), Some(tag_map(&[("date", "first")]))),
            stream(Some(10), Some(20), None),
            stream(Some(30), Some(40), Some(tag_map(&[("date", "late")]))),
        ],
        format: Some(FfprobeFormat { duration: some("1.5"), tags: Some(tag_map(&[("date", "format")])) }),
    };
    let r = media::read_probe(&report);
    assert_eq!((r.width, r.height), (Some(10), Some(20)));
    assert_eq!(r.taken_at, some("first"));
    assert_eq!(r.duration_seconds, some("1.5"));
}

#[test]
fn probe_falls_back_to_the_container() {
    let report = FfprobeOutput {
        streams: vec![
            stream(None, None, Some(tag_map(&[("date", "first")]))),
            stream(None, None, Some(tag_map(&[("title", "none")]))),
        ],
        format: Some(FfprobeFormat { duration: None, tags: Some(tag_map(&[("date", "format")])) }),
    };
    let r = media::read_probe(&report);
    assert_eq!(r.taken_at, some("format"));
    assert_eq!(r.width, None);
    let r = media::read_probe(&FfprobeOutput { streams: vec![], format: None });
    assert_eq!((r.width, r.duration_seconds, r.taken_at), (None, None, None));
}

#[test]
fn commands_have_their_arguments() {
    assert_eq!(
        media::probe_args("/x.jpg"),
        texts(&["-v", "quiet", "-print_format", "json", "-show_format", "-show_streams", "/x.jpg"])
    );
    let scale = "scale='min(320,iw)':'min(320,ih)':force_original_aspect_ratio=decrease";
    assert_eq!(media::scale_filter(320), scale);
    assert_eq!(
        media::thumbnail_args("in", "out", MediaType::Image, 320),
        texts(&["-y", "-i", "in", "-frames:v", "1", "-vf", scale, "-q:v", "4", "out"])
    );
    assert_eq!(
        media::thumbnail_args("in", "out", MediaType::Video, 320),
        texts(&["-y", "-ss", "1", "-i", "in", "-frames:v", "1", "-vf", scale, "-q:v", "4", "out"])
    );
}

#[test]
fn extensions_come_from_the_name_or_the_type() {
    assert_eq!(ingest::extension_for("CAT.JPG", "image/png"), "jpg");
    assert_eq!(ingest::extension_for("cat", "image/png"), "png");
    assert_eq!(ingest::extension_for("cat.", "image/png"), "png");
    assert_eq!(ingest::extension_for("cat", "image/no-such-type"), "bin");
    assert_eq!(ingest::choose_extension("cat", some("xyz")), "xyz");
    assert_eq!(ingest::choose_extension("cat", None), "bin");
}

#[test]
fn extensions_are_in_lowercase() {
    assert_eq!(ingest::choose_extension("x.JpG_1", None), "jpg_1");
    assert_eq!(ingest::choose_extension("x.\u{c9}T\u{c9}", None), "\u{e9}t\u{e9}");
}

#[test]
fn names_suggest_mime_types() {
    assert_eq!(media::mime_from_name("x/cat.JPEG"), some("image/jpeg"));
    assert_eq!(media::mime_from_name("clip.mp4"), some("video/mp4"));
    assert_eq!(media::mime_from_name("cat"), None);
}

fn judged(content_type: Option<&str>, guessed: Option<&str>) -> Result<(String, MediaType), String> {
    ingest::judge(content_type.map(|s| s.to_string()), guessed.map(|s| s.to_string()))
        .map_err(|e| format!("{} {}", e.0, e.1))
}

#[test]
fn declared_types_go_before_guesses() {
    assert_eq!(judged(Some("image/png"), Some("video/mp4")), Ok(("image/png".to_string(), MediaType::Image)));
    assert_eq!(judged(Some(""), Some("video/mp4")), Ok(("video/mp4".to_string(), MediaType::Video)));
    assert_eq!(
        judged(Some("application/octet-stream"), Some("video/mp4")),
        Ok(("video/mp4".to_string(), MediaType::Video))
    );
    assert_eq!(judged(None, None), Err("400 could not determine file type".to_string()));
    assert_eq!(judged(Some("text/plain"), None), Err("400 unsupported media type: text/plain".to_string()));
}

#[test]
fn content_is_hashed() {
    assert_eq!(
        ingest::content_hash(&b"abc".to_vec()),
        "ba7816bf8f01cfea414140de5dae2223b00361a396177a9cb410ff61f20015ad"
    );
    assert_ne!(ingest::content_hash(&vec![]), ingest::content_hash(&vec![0]));
}

#[test]
fn incoming_files_become_rows() {
    let f = Incoming::new("Clip.MOV".to_string(), None, &vec![1, 2, 3]).unwrap();
    assert_eq!(f.mime_type, "video/quicktime");
    assert_eq!(f.media_type, MediaType::Video);
    assert_eq!(f.file_size, 3);
    assert_eq!(f.extension(), "mov");
    let path = f.path("/lib", "mov");
    assert_eq!(path, format!("/lib/originals/{}/{}/{}.mov", &f.hash[0..2], &f.hash[2..4], f.hash));
    let jobs = ingest::thumbnail_jobs("/lib", &f.hash);
    assert_eq!((jobs[0].1, jobs[1].1), (320, 1280));
    let probe = ProbeResult { width: Some(1), height: Some(2), duration_seconds: some("3"), taken_at: some("t") };
    let row = f.row("id1".to_string(), "mov".to_string(), Some(probe));
    assert_eq!((row.id.as_str(), row.media_type, row.width, row.height), ("id1", "video", Some(1), Some(2)));
    assert_eq!((row.duration_seconds, row.taken_at, row.ext), (some("3"), some("t"), "mov".to_string()));
}

#[test]
fn images_have_no_duration() {
    let f = Incoming::new("cat.png".to_string(), None, &vec![1]).unwrap();
    let probe = ProbeResult { width: Some(1), height: Some(2), duration_seconds: some("0.04"), taken_at: None };
    let row = f.new_row("png".to_string(), Some(probe));
    assert_eq!((row.width, row.duration_seconds), (Some(1), None));
    assert_eq!(row.id.len(), 36);
    let f = Incoming::new("cat.png".to_string(), None, &vec![1]).unwrap();
    let row = f.new_row("png".to_string(), None);
    assert_eq!((row.width, row.height, row.taken_at), (None, None, None));
}

#[test]
fn unknown_files_are_refused() {
    let e = Incoming::new("notes.txt".to_string(), None, &vec![]).err().unwrap();
    assert_eq!((e.0, e.1.as_str()), (400, "unsupported media type: text/plain"));
    let e = Incoming::new("notes".to_string(), None, &vec![]).err().unwrap();
    assert_eq!(e.1, "could not determine file type");
}

#[test]
fn same_content_has_the_same_hash_under_any_name() {
    let a = Incoming::new("a.png".to_string(), None, &vec![9, 9]).unwrap();
    let b = Incoming::new("b.mp4".to_string(), None, &vec![9, 9]).unwrap();
    assert_eq!(a.hash, b.hash);
}

#[test]
fn identifiers_have_their_form() {
    let a = new_id();
    let b = new_id();
    assert_ne!(a, b);
    let c: Vec<char> = a.chars().collect();
    assert_eq!(c.len(), 36);
    assert_eq!((c[8], c[13], c[18], c[23], c[14]), ('-', '-', '-', '-', '4'));
    assert!("89ab".contains(c[19]));
    assert!(c.iter().enumerate().all(|(i, x)| [8, 13, 18, 23].contains(&i) || "0123456789abcdef".contains(*x)));
}

#[test]
fn outcomes_say_what_was_new() {
    let asked = texts(&["a", "b", "c"]);
    let o = ingest::outcome(photo_row("p"), None, &asked, texts(&["a"]));
    assert!(o.created);
    assert_eq!(o.tags_added, asked);
    let o = ingest::outcome(photo_row("p"), Some(texts(&["b", "x"])), &asked, texts(&["a", "b", "c", "x"]));
    assert!(!o.created);
    assert_eq!(o.tags_added, texts(&["a", "c"]));
    assert_eq!((o.photo.id.as_str(), o.photo.tags.len()), ("p", 4));
}

#[test]
fn known_content_is_not_stored_again() {
    let file = |name: &str| Incoming::new(name.to_string(), None, &vec![1]).unwrap();
    assert!(matches!(file("a.png").looked_up(None), Lookup::New(f) if f.filename == "a.png"));
    assert!(matches!(file("a.png").looked_up(Some(photo_row("p"))), Lookup::Known(r) if r.id == "p"));
}

#[test]
fn tags_are_given_one_after_the_other() {
    let mut tagging = Tagging::new(photo_row("p"), Some(texts(&["b"])), texts(&["a", "b"]));
    let mut given = Vec::new();
    while let Some(path) = tagging.ask() {
        given.push(path.clone());
        tagging.given();
    }
    assert_eq!(given, texts(&["a", "b"]));
    let o = tagging.finish(texts(&["a", "b"]));
    assert_eq!((o.created, o.tags_added), (false, texts(&["a"])));
}

/// Takes in a file: `photos` are the contents that are there, each with the photo
/// and its tags. Gives the photo and the status.
fn take_in(photos: &mut Vec<(String, String, Vec<String>)>, bytes: &[u8], paths: &[&str]) -> (String, &'static str) {
    let file = Incoming::new("a.png".to_string(), None, &bytes.to_vec()).unwrap();
    let hash = file.hash.clone();
    let existing = photos.iter().find(|p| p.0 == hash).map(|p| photo_row(&p.1));
    let (row, before) = match file.looked_up(existing) {
        Lookup::Known(row) => {
            let had = photos.iter().find(|p| p.0 == hash).map(|p| p.2.clone());
            (row, had)
        }
        Lookup::New(_) => {
            let id = format!("photo{}", photos.len());
            photos.push((hash.clone(), id.clone(), vec![]));
            (photo_row(&id), None)
        }
    };
    let mut tagging = Tagging::new(row, before, texts(paths));
    let place = photos.iter().position(|p| p.0 == hash).unwrap();
    while let Some(path) = tagging.ask() {
        let plain = tags::split_path(path).join("/");
        if !photos[place].2.contains(&plain) {
            photos[place].2.push(plain);
        }
        tagging.given();
    }
    let outcome = tagging.finish(photos[place].2.clone());
    (outcome.photo.id.clone(), ingest::status_for(outcome.created, &outcome.tags_added))
}

#[test]
fn taking_in_the_same_file_twice_changes_nothing() {
    let mut photos = Vec::new();
    assert_eq!(take_in(&mut photos, &[1, 2], &["a/b", "c"]), ("photo0".to_string(), "uploaded"));
    assert_eq!(take_in(&mut photos, &[3], &[]), ("photo1".to_string(), "uploaded"));
    let once = photos.clone();
    assert_eq!(take_in(&mut photos, &[1, 2], &["a/b", "c"]), ("photo0".to_string(), "skipped"));
    assert_eq!(take_in(&mut photos, &[3], &[]), ("photo1".to_string(), "skipped"));
    assert_eq!(photos, once);
    assert_eq!(take_in(&mut photos, &[1, 2], &["c", "d"]), ("photo0".to_string(), "tagged"));
}

#[test]
fn statuses_follow_the_outcome() {
    assert_eq!(ingest::status_for(true, &vec![]), "uploaded");
    assert_eq!(ingest::status_for(false, &texts(&["a"])), "tagged");
    assert_eq!(ingest::status_for(false, &vec![]), "skipped");
}

#[test]
fn summaries_count_every_status() {
    let mut s = ImportSummary::default();
    for status in ["uploaded", "tagged", "tagged", "skipped", "error"] {
        s.record(status);
    }
    assert_eq!((s.scanned, s.uploaded, s.tagged, s.skipped, s.errors), (5, 1, 2, 1, 1));
    assert_eq!(s.scanned, s.uploaded + s.tagged + s.skipped + s.errors);
    s.record("dry_run");
    assert_eq!((s.scanned, s.uploaded, s.tagged, s.skipped, s.errors), (6, 1, 2, 1, 1));
}

#[test]
fn file_results_are_cloned_whole() {
    let r = FileResult { path: "p".to_string(), status: "error", tags: texts(&["t"]), photo_id: None, error: some("e") };
    let c = r.clone();
    assert_eq!((c.path, c.status, c.tags, c.photo_id, c.error), (r.path, r.status, r.tags, r.photo_id, r.error));
}

#[test]
fn photos_keep_their_rows() {
    let p = Photo::from_row(photo_row("q"), texts(&["t"]));
    assert_eq!((p.id.as_str(), p.width, p.tags), ("q", Some(4), texts(&["t"])));
}

#[test]
fn tokens_are_required() {
    assert_eq!(require_token(Some("Bearer secret"), "secret"), Ok(()));
    assert_eq!(require_token(Some("Bearer wrong"), "secret"), Err(401));
    assert_eq!(require_token(Some("bearer secret"), "secret"), Err(401));
    assert_eq!(require_token(Some("secret"), "secret"), Err(401));
    assert_eq!(require_token(None, "secret"), Err(401));
}

fn config(libraries: &[(&str, u16)]) -> Config {
    Config {
        host: default_host(),
        api_token: "t".to_string(),
        libraries: libraries.iter().map(|(p, n)| LibraryConfig { library_path: p.to_string(), port: *n }).collect(),
    }
}

#[test]
fn configurations_are_checked() {
    assert_eq!(Config::config_path("/home/u"), "/home/u/.config/phoserv/config.toml");
    assert!(matches!(config(&[]).check_count(), Err(ConfigError::NoLibraries)));
    assert_eq!(ConfigError::NoLibraries.message(), "config must define at least one [[libraries]] entry");
    let c = config(&[("/a", 1), ("b", 2), ("/c", 1)]);
    assert!(c.check_count().is_ok());
    assert!(c.check_library(0).is_ok());
    let e = c.check_library(1).err().unwrap();
    assert_eq!(e.message(), "library_path in config must be an absolute path");
    let e = c.check_library(2).err().unwrap();
    assert_eq!(e.message(), "duplicate port 1 across libraries in config");
}

#[test]
fn every_library_gets_a_server() {
    let servers = config(&[("/a", 4173), ("/b", 4174)]).into_servers();
    assert_eq!(servers.len(), 2);
    assert_eq!(servers[1].address(), "127.0.0.1:4174");
    assert_eq!((servers[0].library_path.as_str(), servers[0].api_token.as_str()), ("/a", "t"));
}

#[test]
fn errors_have_their_status() {
    let e = AppError::not_found("x");
    assert_eq!((e.0, e.1.as_str()), (404, "x"));
    assert_eq!(AppError::bad_request("x").0, 400);
    assert_eq!(AppError::internal("x").0, 500);
    assert_eq!(found(Some(3), "y").unwrap(), 3);
    assert_eq!(found::<i32>(None, "y").err().unwrap().1, "y");
}
