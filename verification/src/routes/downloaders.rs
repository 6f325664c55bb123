//! Routes for downloaders: scripts that fetch files, and the jobs that run them.
use vstd::prelude::*;

use crate::error::AppError;
use crate::ids;
use crate::ingest::{FileResult, ImportSummary, IngestOutcome};
use crate::paths;
use crate::routes::photos;
use crate::text;
use crate::textset;

verus! {

/// How a job stands.
#[derive(Debug, Clone, Copy, PartialEq, Eq, Structural)]
pub enum JobStatus {
    Running,
    Completed,
    Failed,
}

/// A run of a downloader script for some urls.
#[derive(Debug)]
pub struct Job {
    pub id: String,
    pub script: String,
    pub urls: Vec<String>,
    /// Index into `urls` of the one currently being processed; `None` once
    /// every url has been run (or before the first one has started).
    pub current_index: Option<usize>,
    pub status: JobStatus,
    pub log: Vec<String>,
    pub results: Vec<FileResult>,
    pub summary: ImportSummary,
    pub started_at: String,
    pub finished_at: Option<String>,
}

/// A downloader script.
#[derive(Debug)]
pub struct DownloaderInfo {
    pub name: String,
}

/// An entry of the directory of downloaders. A name that is no text is left out.
#[derive(Debug)]
pub struct DirectoryEntry {
    pub name: Option<String>,
    pub is_file: bool,
    pub mode: u32,
}

/// Whether an entry is a downloader: a file that someone may execute, with a
/// name that is a text.
pub open spec fn is_downloader(e: DirectoryEntry) -> bool {
    e.is_file && e.mode & 0o111 != 0 && e.name is Some
}

/// The names of the downloaders, in the order of the directory.
pub open spec fn downloader_names(entries: Seq<DirectoryEntry>) -> Seq<Seq<char>>
    decreases entries.len(),
{
    if entries.len() == 0 {
        Seq::empty()
    } else if is_downloader(entries.last()) {
        downloader_names(entries.drop_last()).push(entries.last().name->0@)
    } else {
        downloader_names(entries.drop_last())
    }
}

/// Lists executable files directly inside a directory, sorted by name.
pub fn list(entries: &Vec<DirectoryEntry>) -> (r: Vec<DownloaderInfo>)
    ensures
        r@.map_values(|d: DownloaderInfo| d.name@) == textset::sorted(downloader_names(entries@)),
{
    let mut names: Vec<String> = Vec::new();
    let mut i: usize = 0;
    assert(text::texts(names@) =~= downloader_names(entries@.take(0)));
    while i < entries.len()
        invariant
            i <= entries.len(),
            text::texts(names@) == downloader_names(entries@.take(i as int)),
        decreases entries.len() - i,
    {
        let ghost was = names@;
        let e = &entries[i];
        assert(entries@.take(i + 1).drop_last() =~= entries@.take(i as int));
        assert(entries@.take(i + 1).last() == *e);
        if e.is_file && e.mode & 0o111 != 0 {
            if let Some(name) = &e.name {
                names.push(name.clone());
                assert(text::texts(names@) =~= text::texts(was).push(name@));
            }
        }
        i = i + 1;
    }
    assert(entries@.take(i as int) =~= entries@);
    let sorted = textset::sort(&names);
    let mut out: Vec<DownloaderInfo> = Vec::new();
    let mut j: usize = 0;
    while j < sorted.len()
        invariant
            j <= sorted.len(),
            out.len() == j,
            forall|k: int| 0 <= k < j ==> (#[trigger] out@[k]).name@ == sorted@[k]@,
        decreases sorted.len() - j,
    {
        out.push(DownloaderInfo { name: sorted[j].clone() });
        j = j + 1;
    }
    assert(out@.map_values(|d: DownloaderInfo| d.name@) =~= text::texts(sorted@));
    out
}

/// Whether a text can be the name of a script in a directory: it names neither
/// the directory nor anything outside it or further inside.
pub open spec fn plain_name(name: Seq<char>) -> bool {
    name.len() > 0 && !name.contains('/') && !name.contains('\\') && name != "."@ && name != ".."@
}

/// Where the script `name` is expected, rejecting anything that isn't a direct
/// child of the configured directory (no path separators, no `.`/`..`) so a
/// script name can never be used to escape the allowlisted directory.
pub fn script_path(downloaders_path: Option<&str>, name: &str) -> (r: Result<String, AppError>)
    ensures
        match r {
            Ok(path) => {
                &&& downloaders_path is Some
                &&& plain_name(name@)
                &&& path@ == paths::joined(downloaders_path->0@, name@)
            },
            Err(e) => match downloaders_path {
                None => e.says(400, "no downloaders_path configured"@),
                Some(_) => !plain_name(name@) && e.says(400, "invalid script name"@),
            },
        },
{
    match downloaders_path {
        None => Err(AppError::bad_request("no downloaders_path configured")),
        Some(dir) => {
            if name.unicode_len() == 0 || text::has_char(name, '/') || text::has_char(name, '\\') || text::same_text(
                name,
                ".",
            ) || text::same_text(name, "..") {
                return Err(AppError::bad_request("invalid script name"));
            }
            Ok(paths::join(dir, name))
        },
    }
}

/// Checks where a script really is: `canonical` is its path without links, if it
/// exists. Only a file directly in the configured directory is accepted.
pub fn check_script(downloaders_path: &str, canonical: Option<&str>, is_file: bool) -> (r: Result<(), AppError>)
    ensures
        match r {
            Ok(_) => {
                &&& canonical is Some && is_file
                &&& paths::parent_of(paths::components(canonical->0@)) == Some(paths::components(downloaders_path@))
            },
            Err(e) => match canonical {
                None => e.says(404, "script not found"@),
                Some(path) => {
                    &&& !is_file || paths::parent_of(paths::components(path@)) != Some(
                        paths::components(downloaders_path@),
                    )
                    &&& e.says(400, "invalid script name"@)
                },
            },
        },
{
    match canonical {
        None => Err(AppError::not_found("script not found")),
        Some(path) => {
            if !paths::is_child_of(path, downloaders_path) || !is_file {
                return Err(AppError::bad_request("invalid script name"));
            }
            Ok(())
        },
    }
}

/// A script is looked for directly in the configured directory and nowhere
/// else.
pub proof fn law_script_is_a_direct_child(dir: Seq<char>, name: Seq<char>)
    requires
        plain_name(name),
    ensures
        paths::components(paths::joined(dir, name)) == paths::components(dir).push(name),
        paths::last_name(paths::components(paths::joined(dir, name))) == Some(name),
{
    paths::law_joined_name_is_child(dir, name);
    reveal_strlit("/");
    assert("/"@[0] == '/');
    if name == "/"@ {
        assert(name.contains(name[0]));
    }
}

/// A request to run a script.
#[derive(Debug)]
pub struct RunBody {
    pub urls: Vec<String>,
}

/// The answer to a request to run a script.
#[derive(Debug)]
pub struct RunResponse {
    pub job_id: String,
}

/// What is left of urls: each without the white space around it, as far as
/// anything is left.
pub open spec fn clean_urls(urls: Seq<Seq<char>>) -> Seq<Seq<char>>
    decreases urls.len(),
{
    if urls.len() == 0 {
        Seq::empty()
    } else if text::trimmed(urls.last()).len() > 0 {
        clean_urls(urls.drop_last()).push(text::trimmed(urls.last()))
    } else {
        clean_urls(urls.drop_last())
    }
}

/// The urls to run a script for. A request without any is refused.
pub fn check_urls(body: &RunBody) -> (r: Result<Vec<String>, AppError>)
    ensures
        match r {
            Ok(urls) => urls.len() > 0 && text::texts(urls@) == clean_urls(text::texts(body.urls@)),
            Err(e) => {
                &&& clean_urls(text::texts(body.urls@)).len() == 0
                &&& e.says(400, "at least one url is required"@)
            },
        },
{
    let ghost all = text::texts(body.urls@);
    let mut out: Vec<String> = Vec::new();
    let mut i: usize = 0;
    assert(text::texts(out@) =~= clean_urls(all.take(0)));
    while i < body.urls.len()
        invariant
            i <= body.urls.len(),
            all == text::texts(body.urls@),
            text::texts(out@) == clean_urls(all.take(i as int)),
        decreases body.urls.len() - i,
    {
        let ghost was = out@;
        assert(all.take(i + 1).drop_last() =~= all.take(i as int));
        assert(all.take(i + 1).last() == body.urls@[i as int]@);
        let url = text::trim(body.urls[i].as_str());
        if url.unicode_len() > 0 {
            out.push(url.to_owned());
            assert(text::texts(out@) =~= text::texts(was).push(url@));
        }
        i = i + 1;
    }
    assert(all.take(i as int) =~= all);
    assert(text::texts(out@).len() == out.len());
    if out.len() == 0 {
        return Err(AppError::bad_request("at least one url is required"));
    }
    Ok(out)
}

/// The time in the form of RFC 3339: `chrono::Utc::now` in the form that
/// `chrono::DateTime::to_rfc3339` gives. It differs from call to call; nothing is
/// claimed of it.
#[verifier::external_body]
pub(crate) fn now() -> (r: String)
{
    chrono::Utc::now().to_rfc3339()
}

impl Job {
    /// A job of which no url has started yet.
    pub fn started(id: String, script: String, urls: Vec<String>, started_at: String) -> (r: Self)
        ensures
            r.id == id,
            r.script == script,
            r.urls == urls,
            r.current_index is None,
            r.status == JobStatus::Running,
            r.log.len() == 0,
            r.results.len() == 0,
            r.summary.scanned == 0 && r.summary.balanced(),
            r.started_at == started_at,
            r.finished_at is None,
    {
        Job {
            id,
            script,
            urls,
            current_index: None,
            status: JobStatus::Running,
            log: Vec::new(),
            results: Vec::new(),
            summary: ImportSummary::default(),
            started_at,
            finished_at: None,
        }
    }

    /// A job that is made now, under a fresh identifier. No url of it has started
    /// yet.
    pub fn start(script: String, urls: Vec<String>) -> (r: Self)
        ensures
            ids::is_id(r.id@),
            r.script == script,
            r.urls == urls,
            r.current_index is None,
            r.status == JobStatus::Running,
            r.log.len() == 0,
            r.results.len() == 0,
            r.summary.scanned == 0 && r.summary.balanced(),
            r.finished_at is None,
    {
        Self::started(ids::new_id(), script, urls, now())
    }

    /// The name of the directory in which the files of the job are staged.
    pub fn staging_name(&self) -> (r: String)
        ensures
            r@ == "phoserv-dl-"@ + self.id@,
    {
        let mut out = "phoserv-dl-".to_owned();
        out.append(self.id.as_str());
        out
    }

    /// Whether all but the log is as in `other`.
    pub open spec fn same_but_log(&self, other: &Job) -> bool {
        *self == (Job { log: self.log, ..*other })
    }

    /// Adds a line to the log.
    pub fn append_log(&mut self, line: String)
        ensures
            final(self).log@ == old(self).log@.push(line),
            final(self).same_but_log(old(self)),
    {
        self.log.push(line);
    }

    /// Takes up what became of a file.
    pub fn record_result(&mut self, result: FileResult)
        requires
            old(self).summary.can_record(result.status@),
        ensures
            final(self).results@ == old(self).results@.push(result),
            old(self).summary.counts_one_more(result.status@, final(self).summary),
            *final(self) == (Job {
                results: final(self).results,
                summary: final(self).summary,
                ..*old(self)
            }),
    {
        self.summary.record(result.status);
        self.results.push(result);
    }

    /// Sets the url that is being processed.
    pub fn set_current_index(&mut self, index: Option<usize>)
        ensures
            *final(self) == (Job { current_index: index, ..*old(self) }),
    {
        self.current_index = index;
    }

    /// Starts with the url at `index`: it becomes the current one, and a line of
    /// the log announces it.
    pub fn begin_url(&mut self, index: usize)
        requires
            index < old(self).urls.len(),
        ensures
            final(self).current_index == Some(index),
            final(self).log@.len() == old(self).log@.len() + 1,
            final(self).log@.drop_last() == old(self).log@,
            final(self).log@.last()@ == url_header(
                index as int,
                old(self).urls.len() as int,
                old(self).urls@[index as int]@,
            ),
            *final(self) == (Job { current_index: Some(index), log: final(self).log, ..*old(self) }),
    {
        self.set_current_index(Some(index));
        let mut line = "=== [".to_owned();
        let number = text::decimal_of(index as u64 + 1);
        line.append(number.as_str());
        line.append("/");
        let total = text::decimal_of(self.urls.len() as u64);
        line.append(total.as_str());
        line.append("] ");
        line.append(self.urls[index].as_str());
        line.append(" ===");
        let ghost was = self.log@;
        self.append_log(line);
        assert(self.log@.drop_last() =~= was);
    }

    /// Ends the job at the time given. It has failed if any run has.
    pub fn finish_at(&mut self, any_failed: bool, at: String)
        ensures
            *final(self) == (Job {
                current_index: None,
                status: if any_failed {
                    JobStatus::Failed
                } else {
                    JobStatus::Completed
                },
                finished_at: Some(at),
                ..*old(self)
            }),
    {
        self.set_current_index(None);
        self.status = if any_failed {
            JobStatus::Failed
        } else {
            JobStatus::Completed
        };
        self.finished_at = Some(at);
    }

    /// Ends the job now. It has failed if any run has.
    pub fn finish(&mut self, any_failed: bool)
        ensures
            final(self).finished_at is Some,
            *final(self) == (Job {
                current_index: None,
                status: if any_failed {
                    JobStatus::Failed
                } else {
                    JobStatus::Completed
                },
                finished_at: final(self).finished_at,
                ..*old(self)
            }),
    {
        self.finish_at(any_failed, now());
    }
}

/// The line that announces a url, with its number counted from 1.
pub open spec fn url_header(index: int, total: int, url: Seq<char>) -> Seq<char> {
    "=== ["@ + text::decimal((index + 1) as nat) + "/"@ + text::decimal(total as nat) + "] "@ + url + " ==="@
}

/// The name of the staging directory of the url at `index`.
pub fn staging_subdir(index: usize) -> (r: String)
    ensures
        r@ == text::decimal(index as nat),
{
    text::decimal_of(index as u64)
}

/// The line of the log for a line of the error output.
pub fn stderr_line(line: &str) -> (r: String)
    ensures
        r@ == "[stderr] "@ + line@,
{
    let mut out = "[stderr] ".to_owned();
    out.append(line);
    out
}

/// Whether any of the runs that ended like this failed.
pub open spec fn any_failed(oks: Seq<bool>) -> bool
    decreases oks.len(),
{
    if oks.len() == 0 {
        false
    } else {
        any_failed(oks.drop_last()) || !oks.last()
    }
}

/// A job has failed exactly if at least one of its runs has.
pub proof fn law_job_fails_with_any_run(oks: Seq<bool>)
    ensures
        any_failed(oks) <==> exists|i: int| 0 <= i < oks.len() && !#[trigger] oks[i],
    decreases oks.len(),
{
    if oks.len() > 0 {
        let front = oks.drop_last();
        law_job_fails_with_any_run(front);
        if any_failed(front) {
            let i = choose|i: int| 0 <= i < front.len() && !#[trigger] front[i];
            assert(!oks[i]);
        }
        if !oks.last() {
            assert(!oks[oks.len() - 1]);
        }
        if exists|i: int| 0 <= i < oks.len() && !#[trigger] oks[i] {
            let i = choose|i: int| 0 <= i < oks.len() && !#[trigger] oks[i];
            if i < front.len() {
                assert(!front[i]);
            }
        }
    }
}

/// How the run of a script for a url ended.
#[derive(Debug)]
pub enum RunEnd {
    /// Its staging directory could not be made.
    NoStaging(String),
    /// It could not be started.
    NotStarted(String),
    /// It exited well.
    Success,
    /// It exited with this status.
    Failure(String),
    /// It could not be waited for.
    WaitFailed(String),
}

/// What the log says of the end of a run; nothing if it ended well.
pub open spec fn end_text(end: RunEnd) -> Option<Seq<char>> {
    match end {
        RunEnd::NoStaging(cause) => Some("failed to create staging dir: "@ + cause@),
        RunEnd::NotStarted(cause) => Some("failed to start script: "@ + cause@),
        RunEnd::Success => None,
        RunEnd::Failure(status) => Some("script exited with "@ + status@),
        RunEnd::WaitFailed(cause) => Some("failed to wait on script: "@ + cause@),
    }
}

fn said(what: &str, cause: &String) -> (r: Option<String>)
    ensures
        text::opt_string(r) == Some(what@ + cause@),
{
    let mut out = what.to_owned();
    out.append(cause.as_str());
    Some(out)
}

/// What the log says of the end of a run; nothing if it ended well.
pub fn end_line(end: &RunEnd) -> (r: Option<String>)
    ensures
        text::opt_string(r) == end_text(*end),
        r is None <==> end is Success,
{
    match end {
        RunEnd::NoStaging(cause) => said("failed to create staging dir: ", cause),
        RunEnd::NotStarted(cause) => said("failed to start script: ", cause),
        RunEnd::Success => None,
        RunEnd::Failure(status) => said("script exited with ", status),
        RunEnd::WaitFailed(cause) => said("failed to wait on script: ", cause),
    }
}

/// The runs of a job, one for each url, strictly in sequence. The job is marked
/// failed if any url's run fails, but every url still gets a run regardless of
/// earlier failures.
#[derive(Debug)]
pub struct JobRun {
    /// The url that comes next.
    pub next: usize,
    /// Whether any run failed so far.
    pub any_failed: bool,
}

impl JobRun {
    /// The runs of a job before the first.
    pub fn new() -> (r: Self)
        ensures
            r.next == 0,
            !r.any_failed,
    {
        JobRun { next: 0, any_failed: false }
    }

    /// Begins with the next url, and gives its index; ends the job if there is
    /// none.
    pub fn advance(&mut self, job: &mut Job) -> (r: Option<usize>)
        ensures
            final(self).any_failed == old(self).any_failed,
            if old(self).next < old(job).urls.len() {
                let i = old(self).next;
                &&& r == Some(i)
                &&& final(self).next == i + 1
                &&& final(job).log@.len() == old(job).log@.len() + 1
                &&& final(job).log@.drop_last() == old(job).log@
                &&& final(job).log@.last()@ == url_header(i as int, old(job).urls.len() as int, old(job).urls@[i as int]@)
                &&& *final(job) == (Job { current_index: Some(i), log: final(job).log, ..*old(job) })
            } else {
                &&& r is None
                &&& final(self).next == old(self).next
                &&& final(job).finished_at is Some
                &&& *final(job) == (Job {
                    current_index: None,
                    status: if old(self).any_failed {
                        JobStatus::Failed
                    } else {
                        JobStatus::Completed
                    },
                    finished_at: final(job).finished_at,
                    ..*old(job)
                })
            },
    {
        if self.next < job.urls.len() {
            let i: usize = self.next;
            job.begin_url(i);
            self.next = i + 1;
            Some(i)
        } else {
            job.finish(self.any_failed);
            None
        }
    }

    /// Takes up how the run for a url ended. The log says so unless it ended
    /// well.
    pub fn ended(&mut self, job: &mut Job, end: &RunEnd)
        ensures
            final(self).next == old(self).next,
            final(self).any_failed == (old(self).any_failed || !(end is Success)),
            forall|oks: Seq<bool>|
                old(self).any_failed == any_failed(oks) ==> final(self).any_failed == #[trigger] any_failed(
                    oks.push(end is Success),
                ),
            final(job).same_but_log(old(job)),
            match end_text(*end) {
                None => final(job).log@ == old(job).log@,
                Some(line) => {
                    &&& final(job).log@.len() == old(job).log@.len() + 1
                    &&& final(job).log@.drop_last() == old(job).log@
                    &&& final(job).log@.last()@ == line
                },
            },
    {
        if let Some(line) = end_line(end) {
            let ghost was = job.log@;
            job.append_log(line);
            assert(job.log@.drop_last() =~= was);
            self.any_failed = true;
        }
        assert forall|oks: Seq<bool>| old(self).any_failed == any_failed(oks) implies self.any_failed
            == #[trigger] any_failed(oks.push(end is Success)) by {
            assert(oks.push(end is Success).drop_last() =~= oks);
        }
    }
}

/// One line of the manifest a downloader script emits on stdout to report a
/// downloaded file: `{"file": "<path relative to the staging dir>", "tags": [...]}`.
/// Any stdout line that isn't valid JSON in this shape is treated as plain
/// log output rather than an error, so scripts are free to print progress.
#[derive(Debug)]
pub struct ManifestLine {
    pub file: String,
    pub tags: Vec<String>,
}

impl ManifestLine {
    /// Where the file is expected, in the staging directory.
    pub fn path(&self, staging_dir: &str) -> (r: String)
        ensures
            r@ == paths::joined(staging_dir@, self.file@),
    {
        paths::join(staging_dir, self.file.as_str())
    }

    /// Checks where the file really is: `canonical` is its path without links, if
    /// it exists. One that is not inside the staging directory is not taken in,
    /// and reported.
    pub fn check(self, canonical: Option<&str>, staging_dir: &str) -> (r: Result<ManifestLine, FileResult>)
        ensures
            match r {
                Ok(line) => line == self && canonical is Some && paths::within(canonical->0@, staging_dir@),
                Err(result) => {
                    &&& canonical is None || !paths::within(canonical->0@, staging_dir@)
                    &&& result.path == self.file && result.tags == self.tags
                    &&& result.status@ == "error"@
                    &&& result.photo_id is None
                    &&& text::opt_string(result.error) == Some("file path escapes staging directory"@)
                },
            },
    {
        match canonical {
            Some(path) => {
                if paths::starts_with(path, staging_dir) {
                    return Ok(self);
                }
            },
            None => {},
        }
        Err(self.failed("file path escapes staging directory".to_owned()))
    }

    /// What is reported if the file cannot be taken in.
    pub fn failed(self, message: String) -> (r: FileResult)
        ensures
            r.path == self.file && r.tags == self.tags,
            r.status@ == "error"@,
            r.photo_id is None && r.error == Some(message),
    {
        photos::error_result(self.file, self.tags, message)
    }

    /// What is reported of a file that was taken in.
    pub fn done(self, outcome: Result<IngestOutcome, AppError>) -> (r: FileResult)
        ensures
            r.path == self.file && r.tags == self.tags,
            match outcome {
                Ok(o) => {
                    &&& r.status@ == crate::ingest::status_text(o.created, o.tags_added.len() > 0)
                    &&& r.photo_id == Some(o.photo.id)
                    &&& r.error is None
                },
                Err(e) => r.status@ == "error"@ && r.photo_id is None && r.error == Some(e.1),
            },
    {
        photos::ingest_result(self.file, self.tags, outcome)
    }
}

/// The name under which a downloaded file is taken in.
pub fn download_name(name: Option<&str>) -> (r: String)
    ensures
        r@ == (match name {
            Some(n) => n@,
            None => "download"@,
        }),
{
    match name {
        Some(n) => n.to_owned(),
        None => "download".to_owned(),
    }
}

proof fn lemma_clean_urls_join(a: Seq<Seq<char>>, b: Seq<Seq<char>>)
    ensures
        clean_urls(a + b) == clean_urls(a) + clean_urls(b),
    decreases b.len(),
{
    if b.len() == 0 {
        assert(a + b =~= a);
        assert(clean_urls(a) + clean_urls(b) =~= clean_urls(a));
    } else {
        assert((a + b).drop_last() =~= a + b.drop_last());
        lemma_clean_urls_join(a, b.drop_last());
        assert(clean_urls(a + b) =~= clean_urls(a) + clean_urls(b));
    }
}

/// Every url that is more than white space is kept, whatever it begins with, and
/// in its place: the urls of two lists, one after the other, are those of each.
pub proof fn law_urls_are_kept_in_order(a: Seq<Seq<char>>, url: Seq<char>, b: Seq<Seq<char>>)
    ensures
        clean_urls(a + b) == clean_urls(a) + clean_urls(b),
        clean_urls(seq![url]) == (if text::trimmed(url).len() > 0 {
            seq![text::trimmed(url)]
        } else {
            Seq::empty()
        }),
        clean_urls(Seq::empty()).len() == 0,
{
    lemma_clean_urls_join(a, b);
    assert(seq![url].drop_last() =~= Seq::<Seq<char>>::empty());
    assert(clean_urls(seq![url].drop_last()) =~= Seq::<Seq<char>>::empty());
    assert(Seq::<Seq<char>>::empty().push(text::trimmed(url)) =~= seq![text::trimmed(url)]);
}

/// A job is run for exactly the urls that were given, each without the white
/// space around it, except those of which nothing is left. If something is left
/// of all of them, all are run, in their order.
pub proof fn law_urls_are_those_given(urls: Seq<Seq<char>>, u: Seq<char>)
    ensures
        clean_urls(urls).contains(u) <==> u.len() > 0 && exists|i: int|
            0 <= i < urls.len() && u == text::trimmed(#[trigger] urls[i]),
        (forall|i: int| 0 <= i < urls.len() ==> text::trimmed(#[trigger] urls[i]).len() > 0) ==> clean_urls(urls).len()
            == urls.len() && forall|i: int|
            0 <= i < urls.len() ==> #[trigger] clean_urls(urls)[i] == text::trimmed(urls[i]),
    decreases urls.len(),
{
    if urls.len() > 0 {
        let front = urls.drop_last();
        let n = urls.len() - 1;
        let before = clean_urls(front);
        let all = clean_urls(urls);
        law_urls_are_those_given(front, u);
        if all.contains(u) {
            let m = all.index_of(u);
            if m < before.len() {
                assert(before[m] == u);
                let i = choose|i: int| 0 <= i < front.len() && u == text::trimmed(#[trigger] front[i]);
                assert(urls[i] == front[i]);
            } else {
                assert(u == text::trimmed(urls[n]));
            }
        }
        if u.len() > 0 && exists|i: int| 0 <= i < urls.len() && u == text::trimmed(#[trigger] urls[i]) {
            let i = choose|i: int| 0 <= i < urls.len() && u == text::trimmed(#[trigger] urls[i]);
            if i < n {
                assert(front[i] == urls[i]);
                assert(all[before.index_of(u)] == u);
            } else {
                assert(all.last() == u);
            }
        }
        if forall|i: int| 0 <= i < urls.len() ==> text::trimmed(#[trigger] urls[i]).len() > 0 {
            assert forall|i: int| 0 <= i < front.len() implies text::trimmed(#[trigger] front[i]).len() > 0 by {
                assert(front[i] == urls[i]);
            }
            assert(text::trimmed(urls[n]).len() > 0);
            assert forall|i: int| 0 <= i < urls.len() implies #[trigger] all[i] == text::trimmed(urls[i]) by {
                if i < n {
                    assert(all[i] == before[i]);
                    assert(front[i] == urls[i]);
                }
            }
        }
    }
}

/// A url that is not blank is enough: a request is refused for want of urls
/// exactly if all of them are white space.
pub proof fn law_one_url_is_enough(urls: Seq<Seq<char>>)
    ensures
        clean_urls(urls).len() == 0 <==> forall|i: int, k: int|
            0 <= i < urls.len() && 0 <= k < urls[i].len() ==> text::is_space(#[trigger] urls[i][k]),
    decreases urls.len(),
{
    if urls.len() > 0 {
        let front = urls.drop_last();
        let n = urls.len() - 1;
        law_one_url_is_enough(front);
        text::lemma_trimmed(urls[n]);
        if clean_urls(urls).len() == 0 {
            assert forall|i: int, k: int| 0 <= i < urls.len() && 0 <= k < urls[i].len() implies text::is_space(
                #[trigger] urls[i][k],
            ) by {
                if i < n {
                    assert(front[i][k] == urls[i][k]);
                }
            }
        }
        if forall|i: int, k: int|
            0 <= i < urls.len() && 0 <= k < urls[i].len() ==> text::is_space(#[trigger] urls[i][k]) {
            assert forall|i: int, k: int| 0 <= i < front.len() && 0 <= k < front[i].len() implies text::is_space(
                #[trigger] front[i][k],
            ) by {
                assert(urls[i][k] == front[i][k]);
            }
            assert forall|k: int| 0 <= k < urls[n].len() implies text::is_space(#[trigger] urls[n][k]) by {}
        }
    }
}

/// An entry is a downloader exactly if it is a file with a name that its owner,
/// its group or others may execute.
pub proof fn law_downloader_is_executable(e: DirectoryEntry)
    ensures
        is_downloader(e) <==> e.is_file && e.name is Some && (e.mode & 0o100 != 0 || e.mode & 0o010 != 0 || e.mode
            & 0o001 != 0),
{
    let mode = e.mode;
    assert(mode & 0o111 != 0 <==> (mode & 0o100 != 0 || mode & 0o010 != 0 || mode & 0o001 != 0)) by (bit_vector);
}

/// Every downloader is listed under its name, and nothing else is: the names of
/// two directories, one after the other, are those of each.
pub proof fn law_downloaders_are_listed(a: Seq<DirectoryEntry>, e: DirectoryEntry, b: Seq<DirectoryEntry>)
    ensures
        downloader_names(a + b) == downloader_names(a) + downloader_names(b),
        downloader_names(seq![e]) == (if is_downloader(e) {
            seq![e.name->0@]
        } else {
            Seq::empty()
        }),
        downloader_names(Seq::empty()).len() == 0,
    decreases b.len(),
{
    if b.len() == 0 {
        assert(a + b =~= a);
        assert(downloader_names(a) + downloader_names(b) =~= downloader_names(a));
    } else {
        assert((a + b).drop_last() =~= a + b.drop_last());
        law_downloaders_are_listed(a, e, b.drop_last());
        assert(downloader_names(a + b) =~= downloader_names(a) + downloader_names(b));
    }
    assert(seq![e].drop_last() =~= Seq::<DirectoryEntry>::empty());
    assert(downloader_names(seq![e].drop_last()) =~= Seq::<Seq<char>>::empty());
    assert(Seq::<Seq<char>>::empty().push(e.name->0@) =~= seq![e.name->0@]);
}

/// Every name is that of a script but the empty one, the two that stand for
/// directories, and those with a slash or a backslash in them.
pub proof fn law_plain_names(name: Seq<char>)
    ensures
        name.contains('/') || name.contains('\\') ==> !plain_name(name),
        !plain_name(Seq::empty()) && !plain_name(seq!['.']) && !plain_name(seq!['.', '.']),
        name.len() > 0 && name != seq!['.'] && name != seq!['.', '.'] && !name.contains('/') && !name.contains('\\')
            ==> plain_name(name),
{
    reveal_strlit(".");
    reveal_strlit("..");
    assert("."@ =~= seq!['.']);
    assert(".."@ =~= seq!['.', '.']);
}

/// A url is announced with its number, counted from 1, the number of urls, and
/// itself.
pub proof fn law_header_tells_the_url(index: nat, total: nat, url: Seq<char>)
    ensures
        url_header(index as int, total as int, url) == "=== ["@ + text::decimal(index + 1) + "/"@ + text::decimal(total)
            + "] "@ + url + " ==="@,
{
}

/// The log says why a run failed, and nothing of one that ended well.
pub proof fn law_end_tells_the_cause(cause: String)
    ensures
        end_text(RunEnd::Success) is None,
        end_text(RunEnd::NoStaging(cause)) == Some("failed to create staging dir: "@ + cause@),
        end_text(RunEnd::NotStarted(cause)) == Some("failed to start script: "@ + cause@),
        end_text(RunEnd::Failure(cause)) == Some("script exited with "@ + cause@),
        end_text(RunEnd::WaitFailed(cause)) == Some("failed to wait on script: "@ + cause@),
{
}

/// What leaves all but the log as it was leaves every other field as it was.
pub proof fn law_only_the_log_differs(before: Job, after: Job)
    requires
        after.same_but_log(&before),
    ensures
        after.id == before.id && after.script == before.script && after.urls == before.urls,
        after.current_index == before.current_index && after.status == before.status,
        after.results == before.results && after.summary == before.summary,
        after.started_at == before.started_at && after.finished_at == before.finished_at,
{
}

} // verus!
