//! Kinds of media, what the probe reports of a file, and the commands that
//! probe a file and make its thumbnails.
use vstd::prelude::*;

use crate::paths;
use crate::strmap::StrMap;
use crate::text;

verus! {

/// The kinds of media that are stored.
#[derive(Debug, Clone, Copy, PartialEq, Eq, Structural)]
pub enum MediaType {
    Image,
    Video,
}

impl MediaType {
    /// The kind of media of a MIME type, by its main type.
    pub open spec fn of_mime(mime: Seq<char>) -> Option<MediaType> {
        if text::begins(mime, "image/"@) {
            Some(MediaType::Image)
        } else if text::begins(mime, "video/"@) {
            Some(MediaType::Video)
        } else {
            None
        }
    }

    /// The kind of media of a MIME type; none for what is neither an image nor
    /// a video.
    pub fn from_mime(mime: &str) -> (r: Option<Self>)
        ensures
            r == Self::of_mime(mime@),
    {
        if text::after_prefix(mime, "image/").is_some() {
            Some(MediaType::Image)
        } else if text::after_prefix(mime, "video/").is_some() {
            Some(MediaType::Video)
        } else {
            None
        }
    }

    /// The name that is stored for the kind.
    pub open spec fn name(&self) -> Seq<char> {
        match self {
            MediaType::Image => "image"@,
            MediaType::Video => "video"@,
        }
    }

    /// The name that is stored for the kind.
    pub fn as_str(&self) -> (r: &'static str)
        ensures
            r@ == self.name(),
    {
        match self {
            MediaType::Image => "image",
            MediaType::Video => "video",
        }
    }
}

/// Every MIME type whose main type is `image` is that of an image, and every one
/// whose main type is `video` that of a video, whatever stands behind the slash.
/// No other type is either.
pub proof fn law_main_type_tells_the_kind(sub: Seq<char>, mime: Seq<char>)
    ensures
        MediaType::of_mime("image/"@ + sub) == Some(MediaType::Image),
        MediaType::of_mime("video/"@ + sub) == Some(MediaType::Video),
        (forall|rest: Seq<char>| mime != #[trigger] ("image/"@ + rest)) && (forall|rest: Seq<char>|
            mime != #[trigger] ("video/"@ + rest)) ==> MediaType::of_mime(mime) is None,
{
    reveal_strlit("image/");
    reveal_strlit("video/");
    let image = "image/"@ + sub;
    let video = "video/"@ + sub;
    assert(image == "image/"@ + sub && video == "video/"@ + sub);
    text::law_beginning(image, "image/"@);
    text::law_beginning(video, "video/"@);
    text::law_beginning(video, "image/"@);
    text::law_beginning(mime, "image/"@);
    text::law_beginning(mime, "video/"@);
    if text::begins(video, "image/"@) {
        assert(video[0] == 'v');
        assert(video.take(6)[0] == "image/"@[0]);
    }
}

/// The name of a kind is the main type of its MIME types.
pub proof fn law_kind_is_named_by_its_main_type(kind: MediaType, sub: Seq<char>)
    ensures
        MediaType::of_mime(kind.name() + seq!['/'] + sub) == Some(kind),
        !kind.name().contains('/'),
{
    reveal_strlit("image/");
    reveal_strlit("video/");
    reveal_strlit("image");
    reveal_strlit("video");
    law_main_type_tells_the_kind(sub, sub);
    assert("image"@ + seq!['/'] + sub =~= "image/"@ + sub);
    assert("video"@ + seq!['/'] + sub =~= "video/"@ + sub);
}

/// What is known of a file from its probe. The duration is the text of a number
/// of seconds.
#[derive(Debug)]
pub struct ProbeResult {
    pub width: Option<i64>,
    pub height: Option<i64>,
    pub duration_seconds: Option<String>,
    pub taken_at: Option<String>,
}

impl ProbeResult {
    /// Whether nothing is known.
    pub open spec fn blank(&self) -> bool {
        self.width is None && self.height is None && self.duration_seconds is None && self.taken_at is None
    }
}

impl Default for ProbeResult {
    fn default() -> (r: Self)
        ensures
            r.blank(),
    {
        ProbeResult { width: None, height: None, duration_seconds: None, taken_at: None }
    }
}

/// The report of the probe.
pub struct FfprobeOutput {
    pub streams: Vec<FfprobeStream>,
    pub format: Option<FfprobeFormat>,
}

/// What the probe reports of a stream.
pub struct FfprobeStream {
    pub width: Option<i64>,
    pub height: Option<i64>,
    pub tags: Option<StrMap<String>>,
}

/// What the probe reports of the container.
pub struct FfprobeFormat {
    pub duration: Option<String>,
    pub tags: Option<StrMap<String>>,
}

/// The tags that may hold the time of capture, the most trusted one first.
pub open spec fn taken_at_keys() -> Seq<Seq<char>> {
    seq!["creation_time"@, "DateTimeOriginal"@, "date"@, "com.apple.quicktime.creationdate"@]
}

/// The value of a tag, under its own name or under its name in lowercase.
pub open spec fn tag_value(tags: Map<Seq<char>, String>, key: Seq<char>) -> Option<Seq<char>> {
    if tags.contains_key(key) {
        Some(tags[key]@)
    } else if tags.contains_key(text::lowercase_of(key)) {
        Some(tags[text::lowercase_of(key)]@)
    } else {
        None
    }
}

/// The value of the first of `keys` that has one.
pub open spec fn first_value(tags: Map<Seq<char>, String>, keys: Seq<Seq<char>>) -> Option<Seq<char>>
    decreases keys.len(),
{
    if keys.len() == 0 {
        None
    } else if tag_value(tags, keys[0]) is Some {
        tag_value(tags, keys[0])
    } else {
        first_value(tags, keys.skip(1))
    }
}

/// The time of capture that a set of tags gives.
pub open spec fn time_in(tags: Map<Seq<char>, String>) -> Option<Seq<char>> {
    first_value(tags, taken_at_keys())
}

/// The value under the first of `names` that is there.
pub open spec fn first_under(tags: Map<Seq<char>, String>, names: Seq<Seq<char>>) -> Option<Seq<char>>
    decreases names.len(),
{
    if names.len() == 0 {
        None
    } else if tags.contains_key(names[0]) {
        Some(tags[names[0]]@)
    } else {
        first_under(tags, names.skip(1))
    }
}

proof fn lemma_lowercase_keys()
    ensures
        text::lowercase_of("creation_time"@) == "creation_time"@,
        text::lowercase_of("DateTimeOriginal"@) == "datetimeoriginal"@,
        text::lowercase_of("date"@) == "date"@,
        text::lowercase_of("com.apple.quicktime.creationdate"@) == "com.apple.quicktime.creationdate"@,
{
    reveal_strlit("creation_time");
    reveal_strlit("DateTimeOriginal");
    reveal_strlit("datetimeoriginal");
    reveal_strlit("date");
    reveal_strlit("com.apple.quicktime.creationdate");
    assert(text::lowercase_of("creation_time"@) =~= "creation_time"@);
    assert(text::lowercase_of("DateTimeOriginal"@) =~= "datetimeoriginal"@);
    assert(text::lowercase_of("date"@) =~= "date"@);
    assert(text::lowercase_of("com.apple.quicktime.creationdate"@) =~= "com.apple.quicktime.creationdate"@);
}

/// The time of capture is looked for under these names, in this order: only one
/// of the tags has another name in lowercase.
pub proof fn law_time_is_found_by_name(tags: Map<Seq<char>, String>)
    ensures
        time_in(tags) == first_under(
            tags,
            seq![
                "creation_time"@,
                "DateTimeOriginal"@,
                "datetimeoriginal"@,
                "date"@,
                "com.apple.quicktime.creationdate"@,
            ],
        ),
        time_in(tags) == (if tags.contains_key("creation_time"@) {
            Some(tags["creation_time"@]@)
        } else if tags.contains_key("DateTimeOriginal"@) {
            Some(tags["DateTimeOriginal"@]@)
        } else if tags.contains_key("datetimeoriginal"@) {
            Some(tags["datetimeoriginal"@]@)
        } else if tags.contains_key("date"@) {
            Some(tags["date"@]@)
        } else if tags.contains_key("com.apple.quicktime.creationdate"@) {
            Some(tags["com.apple.quicktime.creationdate"@]@)
        } else {
            None
        }),
{
    lemma_lowercase_keys();
    let (a, b, c, d, e) = (
        "creation_time"@,
        "DateTimeOriginal"@,
        "datetimeoriginal"@,
        "date"@,
        "com.apple.quicktime.creationdate"@,
    );
    reveal_with_fuel(first_value, 5);
    reveal_with_fuel(first_under, 6);
    assert(seq![a, b, c, d, e].skip(1) =~= seq![b, c, d, e]);
    assert(seq![b, c, d, e].skip(1) =~= seq![c, d, e]);
    assert(seq![c, d, e].skip(1) =~= seq![d, e]);
    assert(seq![a, b, d, e].skip(1) =~= seq![b, d, e]);
    assert(seq![b, d, e].skip(1) =~= seq![d, e]);
    assert(seq![d, e].skip(1) =~= seq![e]);
    assert(seq![e].skip(1) =~= Seq::empty());
}

fn value_of(tags: &StrMap<String>, key: &str) -> (r: Option<String>)
    ensures
        text::opt_string(r) == tag_value(tags@, key@),
{
    if let Some(v) = tags.get(key) {
        return Some(v.clone());
    }
    // The keys of tags are sometimes in lowercase.
    let lower = text::lowercase(key);
    if let Some(v) = tags.get(lower.as_str()) {
        return Some(v.clone());
    }
    None
}

/// The time of capture that a set of tags gives.
pub fn find_taken_at(tags: &StrMap<String>) -> (r: Option<String>)
    ensures
        text::opt_string(r) == time_in(tags@),
{
    let mut keys: Vec<&'static str> = Vec::new();
    keys.push("creation_time");
    keys.push("DateTimeOriginal");
    keys.push("date");
    keys.push("com.apple.quicktime.creationdate");
    assert(text::str_texts(keys@) =~= taken_at_keys());
    let mut i: usize = 0;
    assert(taken_at_keys().skip(0) =~= taken_at_keys());
    while i < keys.len()
        invariant
            i <= keys.len(),
            text::str_texts(keys@) == taken_at_keys(),
            time_in(tags@) == first_value(tags@, taken_at_keys().skip(i as int)),
        decreases keys.len() - i,
    {
        assert(text::str_texts(keys@)[i as int] == keys@[i as int]@);
        assert(taken_at_keys().skip(i as int).skip(1) =~= taken_at_keys().skip(i + 1));
        let found = value_of(tags, keys[i]);
        if found.is_some() {
            return found;
        }
        i = i + 1;
    }
    None
}

/// Whether a stream has a width and a height.
pub open spec fn sized(s: FfprobeStream) -> bool {
    s.width is Some && s.height is Some
}

/// The index of the first stream with a width and a height, or the number of
/// streams.
pub open spec fn first_sized(streams: Seq<FfprobeStream>) -> int
    decreases streams.len(),
{
    if streams.len() == 0 || sized(streams[0]) {
        0
    } else {
        1 + first_sized(streams.skip(1))
    }
}

/// The time of capture that the last stream with tags gives.
pub open spec fn last_time(streams: Seq<FfprobeStream>) -> Option<Seq<char>>
    decreases streams.len(),
{
    if streams.len() == 0 {
        None
    } else {
        match streams.last().tags {
            Some(tags) => time_in(tags@),
            None => last_time(streams.drop_last()),
        }
    }
}

/// What a report says of a file. The first stream with a width and a height
/// gives them, and no stream behind it counts. The time of capture is that of
/// the last stream with tags, or that of the container.
pub open spec fn probed(report: FfprobeOutput, r: ProbeResult) -> bool {
    let streams = report.streams@;
    let k = first_sized(streams);
    let from_streams = last_time(
        streams.take(
            if k < streams.len() {
                k + 1
            } else {
                k
            },
        ),
    );
    &&& r.width == (if k < streams.len() {
        streams[k].width
    } else {
        None
    })
    &&& r.height == (if k < streams.len() {
        streams[k].height
    } else {
        None
    })
    &&& text::opt_string(r.duration_seconds) == (match report.format {
        Some(format) => text::opt_string(format.duration),
        None => None,
    })
    &&& text::opt_string(r.taken_at) == (match report.format {
        Some(format) => if from_streams is Some || format.tags is None {
            from_streams
        } else {
            time_in(format.tags->0@)
        },
        None => from_streams,
    })
}

proof fn lemma_first_sized(streams: Seq<FfprobeStream>, i: int)
    requires
        0 <= i <= streams.len(),
        forall|j: int| 0 <= j < i ==> !sized(#[trigger] streams[j]),
        i == streams.len() || sized(streams[i]),
    ensures
        first_sized(streams) == i,
    decreases i,
{
    if i > 0 {
        let rest = streams.skip(1);
        assert(!sized(streams[0]));
        assert forall|j: int| 0 <= j < i - 1 implies !sized(#[trigger] rest[j]) by {
            assert(rest[j] == streams[j + 1]);
        }
        lemma_first_sized(rest, i - 1);
    }
}

/// What a report says of a file.
pub fn read_probe(report: &FfprobeOutput) -> (r: ProbeResult)
    ensures
        probed(*report, r),
{
    let mut result = ProbeResult::default();
    let mut i: usize = 0;
    assert(report.streams@.take(0) =~= Seq::<FfprobeStream>::empty());
    while i < report.streams.len() && result.width.is_none()
        invariant
            i <= report.streams.len(),
            result.duration_seconds is None,
            result.width is None ==> result.height is None && forall|j: int|
                0 <= j < i ==> !sized(#[trigger] report.streams@[j]),
            result.width is Some ==> {
                &&& i > 0
                &&& sized(report.streams@[i - 1])
                &&& result.width == report.streams@[i - 1].width
                &&& result.height == report.streams@[i - 1].height
                &&& forall|j: int| 0 <= j < i - 1 ==> !sized(#[trigger] report.streams@[j])
            },
            text::opt_string(result.taken_at) == last_time(report.streams@.take(i as int)),
        decreases report.streams.len() - i,
    {
        let stream = &report.streams[i];
        assert(report.streams@.take(i + 1).drop_last() =~= report.streams@.take(i as int));
        assert(report.streams@.take(i + 1).last() == *stream);
        if stream.width.is_some() && stream.height.is_some() {
            result.width = stream.width;
            result.height = stream.height;
        }
        if let Some(tags) = &stream.tags {
            result.taken_at = find_taken_at(tags);
        }
        i = i + 1;
    }
    proof {
        lemma_first_sized(
            report.streams@,
            if result.width is Some {
                i - 1
            } else {
                i as int
            },
        );
    }
    if let Some(format) = &report.format {
        result.duration_seconds = format.duration.clone();
        if result.taken_at.is_none() {
            if let Some(tags) = &format.tags {
                result.taken_at = find_taken_at(tags);
            }
        }
    }
    result
}

/// The arguments of the command that probes the file at `path`.
pub fn probe_args(path: &str) -> (r: Vec<String>)
    ensures
        text::texts(r@) == seq![
            "-v"@,
            "quiet"@,
            "-print_format"@,
            "json"@,
            "-show_format"@,
            "-show_streams"@,
            path@,
        ],
{
    let mut out: Vec<String> = Vec::new();
    out.push("-v".to_owned());
    out.push("quiet".to_owned());
    out.push("-print_format".to_owned());
    out.push("json".to_owned());
    out.push("-show_format".to_owned());
    out.push("-show_streams".to_owned());
    out.push(path.to_owned());
    assert(text::texts(out@) =~= seq![
        "-v"@,
        "quiet"@,
        "-print_format"@,
        "json"@,
        "-show_format"@,
        "-show_streams"@,
        path@,
    ]);
    out
}

/// The filter that scales a picture down, never up, until neither side is
/// longer than `max`.
pub open spec fn scale_text(max: nat) -> Seq<char> {
    "scale='min("@ + text::decimal(max) + ",iw)':'min("@ + text::decimal(max)
        + ",ih)':force_original_aspect_ratio=decrease"@
}

/// The filter that scales a picture down, never up, until neither side is
/// longer than `max_dimension`.
pub fn scale_filter(max_dimension: u32) -> (r: String)
    ensures
        r@ == scale_text(max_dimension as nat),
{
    let max = text::decimal_of(max_dimension as u64);
    let mut out = "scale='min(".to_owned();
    out.append(max.as_str());
    out.append(",iw)':'min(");
    out.append(max.as_str());
    out.append(",ih)':force_original_aspect_ratio=decrease");
    out
}

/// The arguments of the command that makes a thumbnail: one frame of the input,
/// scaled. A video is taken from its first second on, since its first frame is
/// often black.
pub open spec fn thumbnail_command(input: Seq<char>, output: Seq<char>, kind: MediaType, max: nat) -> Seq<Seq<char>> {
    let seek = match kind {
        MediaType::Image => Seq::<Seq<char>>::empty(),
        MediaType::Video => seq!["-ss"@, "1"@],
    };
    seq!["-y"@] + seek + seq!["-i"@, input, "-frames:v"@, "1"@, "-vf"@, scale_text(max), "-q:v"@, "4"@, output]
}

/// The arguments of the command that makes a single JPEG thumbnail whose
/// largest dimension is at most `max_dimension`, without upscaling smaller
/// sources.
pub fn thumbnail_args(input: &str, output: &str, media_type: MediaType, max_dimension: u32) -> (r: Vec<String>)
    ensures
        text::texts(r@) == thumbnail_command(input@, output@, media_type, max_dimension as nat),
{
    let mut out: Vec<String> = Vec::new();
    out.push("-y".to_owned());
    match media_type {
        MediaType::Image => {},
        MediaType::Video => {
            out.push("-ss".to_owned());
            out.push("1".to_owned());
        },
    }
    out.push("-i".to_owned());
    out.push(input.to_owned());
    out.push("-frames:v".to_owned());
    out.push("1".to_owned());
    out.push("-vf".to_owned());
    out.push(scale_filter(max_dimension));
    out.push("-q:v".to_owned());
    out.push("4".to_owned());
    out.push(output.to_owned());
    assert(text::texts(out@) =~= thumbnail_command(input@, output@, media_type, max_dimension as nat));
    out
}

/// What `mime_guess` guesses for a file with an extension.
pub uninterp spec fn mime_of_extension(ext: Seq<char>) -> Option<Seq<char>>;

/// `mime_guess::from_ext`, of which the first guess is taken. The guess is a
/// function of the extension, named [`mime_of_extension`].
#[verifier::external_body]
pub(crate) fn guess_mime(ext: &str) -> (r: Option<String>)
    ensures
        text::opt_string(r) == mime_of_extension(ext@),
{
    mime_guess::from_ext(ext).first().map(|m| m.to_string())
}

/// The first of the extensions that `mime_guess` knows for a MIME type.
pub uninterp spec fn extension_of_mime(mime: Seq<char>) -> Option<Seq<char>>;

/// `mime_guess::get_mime_extensions_str`, of which the first extension is
/// taken. It is a function of the MIME type, named [`extension_of_mime`]. A text
/// that is no MIME type has none.
#[verifier::external_body]
pub(crate) fn known_extension(mime: &str) -> (r: Option<String>)
    ensures
        text::opt_string(r) == extension_of_mime(mime@),
{
    mime_guess::get_mime_extensions_str(mime).and_then(|exts| exts.first()).map(|s| s.to_string())
}

/// The MIME type that the name of a file suggests: what its extension stands
/// for, if it has one.
pub open spec fn mime_of_name(filename: Seq<char>) -> Option<Seq<char>> {
    match paths::path_extension(filename) {
        Some(ext) => mime_of_extension(ext),
        None => None,
    }
}

/// The MIME type that the name of a file suggests.
pub fn mime_from_name(filename: &str) -> (r: Option<String>)
    ensures
        text::opt_string(r) == mime_of_name(filename@),
{
    match paths::extension(filename) {
        Some(ext) => guess_mime(ext),
        None => None,
    }
}

proof fn lemma_last_time(streams: Seq<FfprobeStream>, j: int)
    requires
        0 <= j < streams.len(),
        streams[j].tags is Some,
        forall|i: int| j < i < streams.len() ==> (#[trigger] streams[i]).tags is None,
    ensures
        last_time(streams) == time_in(streams[j].tags->0@),
    decreases streams.len(),
{
    if j < streams.len() - 1 {
        assert(streams[streams.len() - 1].tags is None);
        lemma_last_time(streams.drop_last(), j);
    }
}

proof fn lemma_no_time(streams: Seq<FfprobeStream>)
    requires
        forall|i: int| 0 <= i < streams.len() ==> (#[trigger] streams[i]).tags is None,
    ensures
        last_time(streams) is None,
    decreases streams.len(),
{
    if streams.len() > 0 {
        assert(streams[streams.len() - 1].tags is None);
        assert forall|i: int| 0 <= i < streams.drop_last().len() implies (#[trigger] streams.drop_last()[i]).tags
            is None by {
            assert(streams.drop_last()[i] == streams[i]);
        }
        lemma_no_time(streams.drop_last());
    }
}

/// A file has the width and the height of the first stream that has both, and
/// neither if no stream does. Its duration is that of the container.
pub proof fn law_probe_takes_the_first_sized_stream(report: FfprobeOutput, r: ProbeResult, k: int)
    requires
        probed(report, r),
        0 <= k <= report.streams.len(),
        forall|j: int|
            0 <= j < k ==> (#[trigger] report.streams@[j]).width is None || report.streams@[j].height is None,
        k < report.streams.len() ==> report.streams@[k].width is Some && report.streams@[k].height is Some,
    ensures
        k < report.streams.len() ==> r.width == report.streams@[k].width && r.height == report.streams@[k].height,
        k == report.streams.len() ==> r.width is None && r.height is None,
        report.format is Some ==> text::opt_string(r.duration_seconds) == text::opt_string(report.format->0.duration),
        report.format is None ==> r.duration_seconds is None,
{
    assert forall|j: int| 0 <= j < k implies !sized(#[trigger] report.streams@[j]) by {}
    lemma_first_sized(report.streams@, k);
}

/// The time of capture of a file is what the tags of a stream give: of the last
/// stream with tags, up to the first that has a width and a height. Where they
/// give none, or no such stream has tags, it is what the container gives.
pub proof fn law_probe_takes_the_last_time(report: FfprobeOutput, r: ProbeResult, k: int, j: int)
    requires
        probed(report, r),
        0 <= k <= report.streams.len(),
        forall|i: int|
            0 <= i < k ==> (#[trigger] report.streams@[i]).width is None || report.streams@[i].height is None,
        k < report.streams.len() ==> report.streams@[k].width is Some && report.streams@[k].height is Some,
        -1 <= j <= k && j < report.streams.len(),
        j >= 0 ==> report.streams@[j].tags is Some,
        forall|i: int| j < i <= k && i < report.streams.len() ==> (#[trigger] report.streams@[i]).tags is None,
    ensures
        ({
            let of_stream = if j >= 0 {
                time_in(report.streams@[j].tags->0@)
            } else {
                None
            };
            let of_container = if report.format is Some && report.format->0.tags is Some {
                time_in(report.format->0.tags->0@)
            } else {
                None
            };
            text::opt_string(r.taken_at) == (if of_stream is Some {
                of_stream
            } else {
                of_container
            })
        }),
{
    let streams = report.streams@;
    assert forall|i: int| 0 <= i < k implies !sized(#[trigger] streams[i]) by {}
    lemma_first_sized(streams, k);
    let n: int = if k < streams.len() {
        k + 1
    } else {
        k
    };
    let part = streams.take(n);
    assert forall|i: int| j < i < part.len() implies (#[trigger] part[i]).tags is None by {
        assert(part[i] == streams[i]);
    }
    if j >= 0 {
        assert(part[j] == streams[j]);
        lemma_last_time(part, j);
    } else {
        lemma_no_time(part);
    }
}

/// A thumbnail is made of one frame of the input, scaled by the filter, and goes
/// to the output. An image is read from its start and a video from its first
/// second on; nothing else differs between them.
pub proof fn law_thumbnail_command(input: Seq<char>, output: Seq<char>, max: nat)
    ensures
        ({
            let image = thumbnail_command(input, output, MediaType::Image, max);
            let video = thumbnail_command(input, output, MediaType::Video, max);
            &&& image.len() == 10
            &&& image[0] == "-y"@
            &&& image[1] == "-i"@ && image[2] == input
            &&& image[3] == "-frames:v"@ && image[4] == "1"@
            &&& image[5] == "-vf"@ && image[6] == scale_text(max)
            &&& image[7] == "-q:v"@ && image[8] == "4"@
            &&& image[9] == output
            &&& video == image.insert(1, "1"@).insert(1, "-ss"@)
        }),
{
    let image = thumbnail_command(input, output, MediaType::Image, max);
    let video = thumbnail_command(input, output, MediaType::Video, max);
    assert(video =~= image.insert(1, "1"@).insert(1, "-ss"@));
}

/// The filter holds each side to the same greatest length, or to its own if that
/// is less, and keeps the proportions.
pub proof fn law_scaling_holds_both_sides(max: nat)
    ensures
        scale_text(max) == "scale="@ + side_text(max, "iw"@) + ":"@ + side_text(max, "ih"@)
            + ":force_original_aspect_ratio=decrease"@,
{
    reveal_strlit("scale='min(");
    reveal_strlit("scale=");
    reveal_strlit("'min(");
    reveal_strlit(",");
    reveal_strlit("iw");
    reveal_strlit("ih");
    reveal_strlit(")'");
    reveal_strlit(":");
    reveal_strlit(",iw)':'min(");
    reveal_strlit(",ih)':force_original_aspect_ratio=decrease");
    reveal_strlit(":force_original_aspect_ratio=decrease");
    let d = text::decimal(max);
    assert("scale='min("@ =~= "scale="@ + "'min("@);
    assert(",iw)':'min("@ =~= ","@ + "iw"@ + ")'"@ + ":"@ + "'min("@);
    assert(",ih)':force_original_aspect_ratio=decrease"@ =~= ","@ + "ih"@ + ")'"@
        + ":force_original_aspect_ratio=decrease"@);
    assert(scale_text(max) =~= "scale="@ + side_text(max, "iw"@) + ":"@ + side_text(max, "ih"@)
        + ":force_original_aspect_ratio=decrease"@);
}

/// The length of a side: the lesser of `max` and the length `side` of the input.
pub open spec fn side_text(max: nat, side: Seq<char>) -> Seq<char> {
    "'min("@ + text::decimal(max) + ","@ + side + ")'"@
}

/// The name of a file suggests what its extension stands for, whatever stands
/// before the last dot and whatever directory the file lies in. A name without an
/// extension suggests nothing.
pub proof fn law_extension_suggests_the_type(dir: Seq<char>, stem: Seq<char>, ext: Seq<char>)
    requires
        stem.len() > 0 && !stem.contains('/') && stem != seq!['.'] && stem != seq!['.', '.'],
        !ext.contains('/') && !ext.contains('.'),
    ensures
        mime_of_name(paths::joined(dir, stem.push('.') + ext)) == mime_of_extension(ext),
        mime_of_name(stem.push('.') + ext) == mime_of_extension(ext),
        !stem.skip(1).contains('.') ==> mime_of_name(paths::joined(dir, stem)) is None && mime_of_name(stem) is None,
{
    let name = stem.push('.') + ext;
    assert(!name.contains('/')) by {
        if name.contains('/') {
            let k = name.index_of('/');
            if k < stem.len() {
                assert(stem.contains(stem[k]));
            } else if k > stem.len() {
                assert(ext.contains(ext[k - stem.len() - 1]));
            }
        }
    }
    assert(name != seq!['.', '.']) by {
        if name == seq!['.', '.'] {
            assert(stem.len() == 1 && stem[0] == name[0]);
            assert(stem =~= seq!['.']);
        }
    }
    paths::law_extension_stands_behind_the_last_dot(stem, ext);
    paths::law_path_has_the_extension_of_its_file(dir, name);
    paths::law_path_has_the_extension_of_its_file(dir, stem);
}

/// What is known of a file that was not probed: nothing.
pub proof fn law_blank_result(r: ProbeResult)
    ensures
        r.blank() <==> r.width is None && r.height is None && r.duration_seconds is None && r.taken_at is None,
{
}

} // verus!
