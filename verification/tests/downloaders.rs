//! Downloaders: scripts, jobs and manifests.
use phoserv::error::AppError;
use phoserv::paths;
use phoserv::routes::downloaders;
use phoserv::routes::downloaders::{DirectoryEntry, Job, JobRun, JobStatus, ManifestLine, RunBody, RunEnd};
use phoserv::routes::photos::error_result;

fn texts(v: &[&str]) -> Vec<String> {
    v.iter().map(|s| s.to_string()).collect()
}

fn entry(name: Option<&str>, is_file: bool, mode: u32) -> DirectoryEntry {
    DirectoryEntry { name: name.map(|s| s.to_string()), is_file, mode }
}

#[test]
fn executable_files_are_listed_by_name() {
    let entries = vec![
        entry(Some("z.sh"), true, 0o755),
        entry(Some("notes"), true, 0o644),
        entry(Some("dir"), false, 0o755),
        entry(None, true, 0o755),
        entry(Some("a.sh"), true, 0o001),
    ];
    let names: Vec<String> = downloaders::list(&entries).into_iter().map(|d| d.name).collect();
    assert_eq!(names, texts(&["a.sh", "z.sh"]));
}

#[test]
fn script_names_cannot_escape() {
    assert_eq!(downloaders::script_path(Some("/dl"), "get.sh").unwrap(), "/dl/get.sh");
    for bad in ["", ".", "..", "a/b", "a\\b", "/etc/passwd"] {
        let e = downloaders::script_path(Some("/dl"), bad).err().unwrap();
        assert_eq!((e.0, e.1.as_str()), (400, "invalid script name"));
    }
    assert_eq!(paths::components_of(&downloaders::script_path(Some("/dl/./x/"), "get.sh").unwrap()).last(), Some(&"get.sh"));
    let e = downloaders::script_path(None, "get.sh").err().unwrap();
    assert_eq!((e.0, e.1.as_str()), (400, "no downloaders_path configured"));
}

#[test]
fn scripts_lie_directly_in_their_directory() {
    assert!(downloaders::check_script("/dl", Some("/dl/get.sh"), true).is_ok());
    assert!(downloaders::check_script("/dl/", Some("/dl/get.sh"), true).is_ok());
    for (path, is_file) in [("/dl/sub/get.sh", true), ("/etc/get.sh", true), ("/dl/get.sh", false), ("/", true)] {
        let e = downloaders::check_script("/dl", Some(path), is_file).err().unwrap();
        assert_eq!((e.0, e.1.as_str()), (400, "invalid script name"));
    }
    let e = downloaders::check_script("/dl", None, false).err().unwrap();
    assert_eq!((e.0, e.1.as_str()), (404, "script not found"));
}

#[test]
fn urls_are_trimmed_and_required() {
    let body = RunBody { urls: texts(&[" http://a ", "", "  ", "http://b"]) };
    assert_eq!(downloaders::check_urls(&body).unwrap(), texts(&["http://a", "http://b"]));
    let e = downloaders::check_urls(&RunBody { urls: texts(&[" "]) }).err().unwrap();
    assert_eq!((e.0, e.1.as_str()), (400, "at least one url is required"));
}

#[test]
fn jobs_run_through_their_urls() {
    let mut job = Job::start("get.sh".to_string(), texts(&["u", "v"]));
    assert_eq!(job.id.len(), 36);
    assert_eq!(job.staging_name(), format!("phoserv-dl-{}", job.id));
    assert_eq!((job.current_index, job.status), (None, JobStatus::Running));
    assert!(job.started_at.contains('T') && job.started_at.ends_with("+00:00"));
    job.begin_url(1);
    assert_eq!(job.current_index, Some(1));
    assert_eq!(job.log, texts(&["=== [2/2] v ==="]));
    job.append_log("line".to_string());
    job.record_result(error_result("f".to_string(), vec![], "m".to_string()));
    assert_eq!((job.summary.scanned, job.summary.errors, job.results.len()), (1, 1, 1));
    job.finish(false);
    assert_eq!((job.current_index, job.status), (None, JobStatus::Completed));
    assert!(job.finished_at.is_some());
    job.finish_at(true, "later".to_string());
    assert_eq!((job.status, job.finished_at.as_deref()), (JobStatus::Failed, Some("later")));
    assert_eq!(job.log.len(), 2);
}

#[test]
fn a_job_fails_with_any_run() {
    for oks in [vec![], vec![true, true], vec![true, false, true], vec![false]] {
        let urls: Vec<String> = oks.iter().map(|ok| ok.to_string()).collect();
        let mut job = Job::start("get.sh".to_string(), urls.clone());
        let mut runs = JobRun::new();
        let mut seen = Vec::new();
        while let Some(i) = runs.advance(&mut job) {
            assert_eq!(job.current_index, Some(i));
            seen.push(i);
            let end = if oks[i] { RunEnd::Success } else { RunEnd::Failure("exit status: 1".to_string()) };
            runs.ended(&mut job, &end);
        }
        assert_eq!(seen, (0..oks.len()).collect::<Vec<usize>>());
        assert_eq!(runs.any_failed, oks.contains(&false));
        let status = if oks.contains(&false) { JobStatus::Failed } else { JobStatus::Completed };
        assert_eq!((job.status, job.current_index), (status, None));
        assert_eq!(job.log.len(), oks.len() + oks.iter().filter(|ok| !**ok).count());
    }
}

#[test]
fn log_lines_say_what_happened() {
    assert_eq!(downloaders::stderr_line("x"), "[stderr] x");
    assert_eq!(downloaders::staging_subdir(12), "12");
    let say = |e: RunEnd| downloaders::end_line(&e);
    assert_eq!(say(RunEnd::Success), None);
    assert_eq!(say(RunEnd::NoStaging("full".to_string())).as_deref(), Some("failed to create staging dir: full"));
    assert_eq!(say(RunEnd::NotStarted("a".to_string())).as_deref(), Some("failed to start script: a"));
    assert_eq!(say(RunEnd::Failure("exit status: 1".to_string())).as_deref(), Some("script exited with exit status: 1"));
    assert_eq!(say(RunEnd::WaitFailed("b".to_string())).as_deref(), Some("failed to wait on script: b"));
}

fn manifest() -> ManifestLine {
    ManifestLine { file: "sub/x.jpg".to_string(), tags: texts(&["t"]) }
}

#[test]
fn manifest_files_stay_inside() {
    assert_eq!(manifest().path("/tmp/s"), "/tmp/s/sub/x.jpg");
    assert_eq!(manifest().check(Some("/tmp/s/sub/x.jpg"), "/tmp/s").map(|l| l.file).ok().as_deref(), Some("sub/x.jpg"));
    for outside in [None, Some("/tmp/sx"), Some("/etc/passwd")] {
        let r = manifest().check(outside, "/tmp/s").err().unwrap();
        assert_eq!((r.status, r.error.as_deref()), ("error", Some("file path escapes staging directory")));
        assert_eq!((r.path.as_str(), r.tags), ("sub/x.jpg", texts(&["t"])));
    }
    assert_eq!(downloaders::download_name(Some("x.jpg")), "x.jpg");
    assert_eq!(downloaders::download_name(None), "download");
}

#[test]
fn manifest_results_keep_the_line() {
    let r = manifest().failed("m".to_string());
    assert_eq!((r.path.as_str(), r.status, r.error.as_deref(), r.tags), ("sub/x.jpg", "error", Some("m"), texts(&["t"])));
    let r = manifest().done(Err(AppError::internal("db")));
    assert_eq!((r.status, r.error.as_deref()), ("error", Some("db")));
}
