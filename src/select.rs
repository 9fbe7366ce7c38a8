//! The rules the file-selection tool applies around the rating: which files
//! it looks at, which directories it skips, and which rated files it acts on.
use vstd::prelude::*;
use vstd::string::*;

verus! {

/// What `str::to_lowercase` makes of a text.
pub uninterp spec fn lower_of(s: Seq<char>) -> Seq<char>;

/// Relies on `str::to_lowercase`: the result depends on the characters alone.
#[verifier::external_body]
fn lowercase(s: &str) -> (r: String)
    ensures
        r@ == lower_of(s@),
{
    s.to_lowercase()
}

/// `p` occurs in `s` as a run of consecutive characters.
pub open spec fn contains_text(s: Seq<char>, p: Seq<char>) -> bool {
    exists|i: int| 0 <= i && i + p.len() <= s.len() && #[trigger] s.subrange(i, i + p.len()) == p
}

/// Relies on `str::contains` with a `&str` pattern: true exactly when the
/// pattern matches a substring.
#[verifier::external_body]
fn text_contains(s: &str, pattern: &str) -> (r: bool)
    ensures
        r == contains_text(s@, pattern@),
{
    s.contains(pattern)
}

/// A file picked for an action, with the raw file that goes with it.
#[derive(Debug, PartialEq, Eq)]
pub struct Entry {
    pub path: String,
    pub raw_path: Option<String>,
}

impl Entry {
    pub fn new(path: String) -> (r: Entry)
        ensures
            r.path@ == path@,
            r.raw_path is None,
    {
        Entry { path, raw_path: None }
    }

    pub fn new_with_raw(path: String, raw_path: String) -> (r: Entry)
        ensures
            r.path@ == path@,
            r.raw_path matches Some(p) && p@ == raw_path@,
    {
        Entry { path, raw_path: Some(raw_path) }
    }
}

/// A name passes the filter when none of the excluded texts occurs in it.
pub fn filter_string(string: &str, excluded_paths: Vec<String>) -> (r: bool)
    ensures
        r == forall|i: int|
            0 <= i < excluded_paths@.len() ==> !contains_text(string@, #[trigger] excluded_paths@[i]@),
{
    let mut i: usize = 0;
    while i < excluded_paths.len()
        invariant
            i <= excluded_paths@.len(),
            forall|j: int| 0 <= j < i ==> !contains_text(string@, #[trigger] excluded_paths@[j]@),
        decreases excluded_paths@.len() - i,
    {
        if text_contains(string, excluded_paths[i].as_str()) {
            return false;
        }
        i += 1;
    }
    true
}

/// Whether two texts are the same.
fn same_text(a: &str, b: &str) -> (r: bool)
    ensures
        r == (a@ == b@),
{
    let a = String::from_str(a);
    let b = String::from_str(b);
    a == b
}

/// The extensions, in lower case, of the videos the tool reads.
pub open spec fn is_video_ext(e: Seq<char>) -> bool {
    e == "mov"@ || e == "mp4"@ || e == "avi"@
}

/// The extensions, in lower case, of the images the tool reads.
pub open spec fn is_image_ext(e: Seq<char>) -> bool {
    e == "heic"@ || e == "jpg"@ || e == "jpeg"@ || e == "png"@
}

/// Whether a lower-case extension is that of a video.
pub fn is_video_lowercase(extension: &str) -> (r: bool)
    ensures
        r == is_video_ext(extension@),
{
    same_text(extension, "mov") || same_text(extension, "mp4") || same_text(extension, "avi")
}

/// Whether a file with this extension (in any case) is a video.
pub fn is_video(extension: &str) -> (r: bool)
    ensures
        r == is_video_ext(lower_of(extension@)),
{
    let lower = lowercase(extension);
    is_video_lowercase(lower.as_str())
}

/// Whether a lower-case extension is one the tool reads: an image's, or a
/// video's when videos are included.
pub fn is_allowed_lowercase(extension: &str, include_videos: bool) -> (r: bool)
    ensures
        r == (is_image_ext(extension@) || (include_videos && is_video_ext(extension@))),
{
    let image = same_text(extension, "heic") || same_text(extension, "jpg") || same_text(
        extension,
        "jpeg",
    ) || same_text(extension, "png");
    image || (include_videos && is_video_lowercase(extension))
}

/// A file name that starts with a dot is hidden.
pub open spec fn is_hidden(name: Seq<char>) -> bool {
    name.len() > 0 && name[0] == '.'
}

/// Whether the tool reads a file with this name and extension: not hidden,
/// and with an allowed extension in any case.
pub fn is_file_allowed(file_name: &str, extension: &str, include_videos: bool) -> (r: bool)
    ensures
        r == (!is_hidden(file_name@) && (is_image_ext(lower_of(extension@)) || (include_videos
            && is_video_ext(lower_of(extension@))))),
{
    if file_name.unicode_len() > 0 && file_name.get_char(0) == '.' {
        return false;
    }
    let lower = lowercase(extension);
    is_allowed_lowercase(lower.as_str(), include_videos)
}

/// Whether the walk descends into a directory: never into a hidden one;
/// below the top level always; at the top level when the name passes the
/// exclusion filter, or, with the filter flipped, when it fails it.
pub fn include_directory(dir_name: &str, depth: i32, excluded_paths: Vec<String>, flip_exclusion: bool) -> (r: bool)
    ensures
        r == (!is_hidden(dir_name@) && (depth != 0 || ((forall|i: int|
            0 <= i < excluded_paths@.len() ==> !contains_text(dir_name@, #[trigger] excluded_paths@[i]@))
            != flip_exclusion))),
{
    let mut pass = filter_string(dir_name, excluded_paths);
    if flip_exclusion {
        pass = !pass;
    }
    let hidden = dir_name.unicode_len() > 0 && dir_name.get_char(0) == '.';
    (depth != 0 || pass) && !hidden
}

/// How a rating is compared with the threshold.
#[derive(Clone, Copy, Debug, PartialEq, Eq, Structural)]
pub enum ComparisonCommand {
    MoreEqual,
    LessEqual,
    Equal,
}

impl ComparisonCommand {
    /// The comparison's name on the command line.
    pub fn name(&self) -> (r: &'static str)
        ensures
            r@ == match self {
                ComparisonCommand::MoreEqual => "more-equal"@,
                ComparisonCommand::LessEqual => "less-equal"@,
                ComparisonCommand::Equal => "equal"@,
            },
    {
        match self {
            ComparisonCommand::MoreEqual => "more-equal",
            ComparisonCommand::LessEqual => "less-equal",
            ComparisonCommand::Equal => "equal",
        }
    }
}

pub open spec fn passes_spec(rating: int, threshold: int, comparison: ComparisonCommand) -> bool {
    match comparison {
        ComparisonCommand::MoreEqual => rating >= threshold,
        ComparisonCommand::LessEqual => rating <= threshold,
        ComparisonCommand::Equal => rating == threshold,
    }
}

/// Whether a rating passes the threshold under the comparison.
pub fn passes_threshold(rating: i32, threshold: i32, comparison: ComparisonCommand) -> (r: bool)
    ensures
        r == passes_spec(rating as int, threshold as int, comparison),
{
    match comparison {
        ComparisonCommand::MoreEqual => rating >= threshold,
        ComparisonCommand::LessEqual => rating <= threshold,
        ComparisonCommand::Equal => rating == threshold,
    }
}

/// Whether a file's label passes: always when no label is wanted, else
/// when the file has exactly that label.
pub fn label_passes(wanted: &Option<String>, found: &Option<String>) -> (r: bool)
    ensures
        r == match wanted {
            None => true,
            Some(w) => match found {
                Some(f) => f@ == w@,
                None => false,
            },
        },
{
    match wanted {
        None => true,
        Some(w) => match found {
            Some(f) => same_text(f.as_str(), w.as_str()),
            None => false,
        },
    }
}

/// Whether the tool acts on a file: it passes both checks, or, inverted,
/// fails at least one.
pub fn is_selected(
    rating: i32,
    threshold: i32,
    comparison: ComparisonCommand,
    label_ok: bool,
    inverse: bool,
) -> (r: bool)
    ensures
        r == ((passes_spec(rating as int, threshold as int, comparison) && label_ok) != inverse),
{
    let pass = passes_threshold(rating, threshold, comparison) && label_ok;
    if inverse {
        !pass
    } else {
        pass
    }
}

/// What the tool does with each selected file.
#[derive(Clone, Copy, Debug, PartialEq, Eq, Structural)]
pub enum FileCommand {
    Move,
    Copy,
    Delete,
    Print,
    DeleteRaws,
    CopyRaws,
}

impl FileCommand {
    /// The word the tool logs for the action.
    pub fn verb(&self) -> (r: &'static str)
        ensures
            r@ == match self {
                FileCommand::Move => "Moving"@,
                FileCommand::Copy => "Copying"@,
                FileCommand::Delete => "Deleting"@,
                FileCommand::Print => "Printing"@,
                FileCommand::DeleteRaws => "Deleting raw file"@,
                FileCommand::CopyRaws => "Copying raw file"@,
            },
    {
        match self {
            FileCommand::Move => "Moving",
            FileCommand::Copy => "Copying",
            FileCommand::Delete => "Deleting",
            FileCommand::Print => "Printing",
            FileCommand::DeleteRaws => "Deleting raw file",
            FileCommand::CopyRaws => "Copying raw file",
        }
    }

    /// The actions that write into a destination directory.
    pub fn requires_destination(&self) -> (r: bool)
        ensures
            r == (*self == FileCommand::Move || *self == FileCommand::Copy || *self
                == FileCommand::CopyRaws),
    {
        match self {
            FileCommand::Move | FileCommand::Copy | FileCommand::CopyRaws => true,
            _ => false,
        }
    }
}

} // verus!
