//! What callers hand in and get back: the kinds of files, the options of a
//! conversion and its result.

use crate::text::{lowercase, same_str, to_lowercase};
use vstd::prelude::*;
use vstd::string::StringExecFns;

verus! {

/// The kind of a file, by which a converter is chosen.
#[derive(Debug, Clone, Copy, PartialEq, Eq, Structural)]
pub enum FileType {
    Image,
    Document,
    Audio,
    Video,
    Config,
}

/// The options of a conversion.
#[derive(Debug, Clone)]
pub struct ConvertOptions {
    /// The format to write, such as `png`, `pdf` or `json`.
    pub output_format: String,
    /// Quality from 0 to 100, for formats that compress.
    pub quality: Option<i32>,
    /// Width to resize to.
    pub width: Option<i32>,
    /// Height to resize to.
    pub height: Option<i32>,
    /// Where the media tool is, if it is not on the search path.
    pub ffmpeg_path: Option<String>,
}

/// The result of a conversion: the path written on success, or a message.
#[derive(Debug, Clone)]
pub struct ConvertResult {
    /// Whether the conversion succeeded.
    pub success: bool,
    /// The file written, on success.
    pub output_path: Option<String>,
    /// What went wrong, on failure.
    pub error: Option<String>,
}

/// How far a conversion has come.
#[derive(Debug, Clone)]
pub struct ConvertProgress {
    /// The task that reports.
    pub task_id: String,
    /// Per cent done, from 0 to 100.
    pub progress: i32,
    /// What the task is doing.
    pub status: String,
}

impl ConvertResult {
    /// Whether the result holds a path exactly on success and a message
    /// exactly on failure.
    pub open spec fn consistent(&self) -> bool {
        &&& self.success <==> self.output_path is Some
        &&& self.success <==> self.error is None
    }

    /// The result of a conversion that wrote `path`.
    pub fn succeeded(path: String) -> (r: ConvertResult)
        ensures
            r.consistent(),
            r.success,
            r.output_path == Some(path),
    {
        ConvertResult { success: true, output_path: Some(path), error: None }
    }

    /// The result of a conversion that failed with `message`.
    pub fn failed(message: String) -> (r: ConvertResult)
        ensures
            r.consistent(),
            !r.success,
            r.error == Some(message),
    {
        ConvertResult { success: false, output_path: None, error: Some(message) }
    }
}

/// The kind of file that an extension in lower case stands for.
pub open spec fn file_type_of(ext: Seq<char>) -> Option<FileType> {
    if ext == "png"@ || ext == "jpg"@ || ext == "jpeg"@ || ext == "webp"@ || ext == "bmp"@ || ext
        == "ico"@ || ext == "svg"@ || ext == "gif"@ {
        Some(FileType::Image)
    } else if ext == "pdf"@ || ext == "md"@ || ext == "markdown"@ || ext == "html"@ || ext
        == "htm"@ || ext == "txt"@ || ext == "doc"@ || ext == "docx"@ || ext == "ppt"@ || ext
        == "pptx"@ || ext == "epub"@ {
        Some(FileType::Document)
    } else if ext == "mp3"@ || ext == "wav"@ || ext == "flac"@ || ext == "aac"@ || ext == "ogg"@
        || ext == "m4a"@ {
        Some(FileType::Audio)
    } else if ext == "mp4"@ || ext == "avi"@ || ext == "mkv"@ || ext == "mov"@ || ext == "webm"@
        || ext == "flv"@ {
        Some(FileType::Video)
    } else if ext == "yaml"@ || ext == "yml"@ || ext == "properties"@ || ext == "json"@ {
        Some(FileType::Config)
    } else {
        None
    }
}

/// The kind of file that the extension `ext`, in lower case, stands for.
pub fn file_type_of_extension(ext: &str) -> (r: Option<FileType>)
    ensures
        r == file_type_of(ext@),
{
    if same_str(ext, "png") || same_str(ext, "jpg") || same_str(ext, "jpeg") || same_str(
        ext,
        "webp",
    ) || same_str(ext, "bmp") || same_str(ext, "ico") || same_str(ext, "svg") || same_str(
        ext,
        "gif",
    ) {
        Some(FileType::Image)
    } else if same_str(ext, "pdf") || same_str(ext, "md") || same_str(ext, "markdown") || same_str(
        ext,
        "html",
    ) || same_str(ext, "htm") || same_str(ext, "txt") || same_str(ext, "doc") || same_str(
        ext,
        "docx",
    ) || same_str(ext, "ppt") || same_str(ext, "pptx") || same_str(ext, "epub") {
        Some(FileType::Document)
    } else if same_str(ext, "mp3") || same_str(ext, "wav") || same_str(ext, "flac") || same_str(
        ext,
        "aac",
    ) || same_str(ext, "ogg") || same_str(ext, "m4a") {
        Some(FileType::Audio)
    } else if same_str(ext, "mp4") || same_str(ext, "avi") || same_str(ext, "mkv") || same_str(
        ext,
        "mov",
    ) || same_str(ext, "webm") || same_str(ext, "flv") {
        Some(FileType::Video)
    } else if same_str(ext, "yaml") || same_str(ext, "yml") || same_str(ext, "properties")
        || same_str(ext, "json") {
        Some(FileType::Config)
    } else {
        None
    }
}

/// The kind of file that a file with the extension `extension` is; the
/// extension may be in any case.
pub fn detect_file_type(extension: &str) -> (r: Option<FileType>)
    ensures
        r == file_type_of(lowercase(extension@)),
{
    let ext = to_lowercase(extension);
    file_type_of_extension(ext.as_str())
}

/// The texts of a list of names.
pub open spec fn names_view(v: Seq<String>) -> Seq<Seq<char>> {
    v.map_values(|s: String| s@)
}

/// Adds a name to a list.
fn push_name(list: &mut Vec<String>, name: &str)
    ensures
        names_view(final(list)@) == names_view(old(list)@).push(name@),
{
    list.push(String::from_str(name));
    assert(names_view(list@) =~= names_view(old(list)@).push(name@));
}

/// The formats that files of a kind can be converted to.
pub open spec fn output_formats_of(file_type: FileType) -> Seq<Seq<char>> {
    match file_type {
        FileType::Image => seq!["png"@, "jpg"@, "jpeg"@, "webp"@, "bmp"@, "ico"@, "gif"@],
        FileType::Document => seq!["html"@, "txt"@, "pdf"@],
        FileType::Audio => seq!["mp3"@, "wav"@, "flac"@, "aac"@, "ogg"@],
        FileType::Video => seq!["mp4"@, "avi"@, "mkv"@, "webm"@],
        FileType::Config => seq!["yaml"@, "yml"@, "properties"@, "json"@],
    }
}

/// The formats that files of a kind can be converted to.
pub fn get_supported_output_formats(file_type: FileType) -> (r: Vec<String>)
    ensures
        names_view(r@) == output_formats_of(file_type),
{
    let mut list: Vec<String> = Vec::new();
    assert(names_view(list@) =~= Seq::<Seq<char>>::empty());
    match file_type {
        FileType::Image => {
            push_name(&mut list, "png");
            push_name(&mut list, "jpg");
            push_name(&mut list, "jpeg");
            push_name(&mut list, "webp");
            push_name(&mut list, "bmp");
            push_name(&mut list, "ico");
            push_name(&mut list, "gif");
        },
        FileType::Document => {
            push_name(&mut list, "html");
            push_name(&mut list, "txt");
            push_name(&mut list, "pdf");
        },
        FileType::Audio => {
            push_name(&mut list, "mp3");
            push_name(&mut list, "wav");
            push_name(&mut list, "flac");
            push_name(&mut list, "aac");
            push_name(&mut list, "ogg");
        },
        FileType::Video => {
            push_name(&mut list, "mp4");
            push_name(&mut list, "avi");
            push_name(&mut list, "mkv");
            push_name(&mut list, "webm");
        },
        FileType::Config => {
            push_name(&mut list, "yaml");
            push_name(&mut list, "yml");
            push_name(&mut list, "properties");
            push_name(&mut list, "json");
        },
    }
    assert(names_view(list@) =~= output_formats_of(file_type));
    list
}

/// The formats that a file with the extension `ext`, in lower case, can be
/// converted to.
pub open spec fn output_formats_for(ext: Seq<char>) -> Seq<Seq<char>> {
    if file_type_of(ext) == Some(FileType::Image) {
        output_formats_of(FileType::Image)
    } else if ext == "md"@ || ext == "markdown"@ {
        seq!["html"@, "txt"@, "docx"@, "pptx"@, "pdf"@]
    } else if ext == "html"@ || ext == "htm"@ || ext == "txt"@ {
        seq!["html"@, "txt"@]
    } else if ext == "docx"@ || ext == "pptx"@ {
        seq!["md"@]
    } else if ext == "epub"@ {
        seq!["pdf"@]
    } else if file_type_of(ext) == Some(FileType::Video) {
        seq!["mp3"@, "wav"@, "aac"@, "flac"@]
    } else if ext == "yaml"@ || ext == "yml"@ {
        seq!["properties"@, "json"@]
    } else if ext == "properties"@ {
        seq!["yaml"@, "yml"@, "json"@]
    } else if ext == "json"@ {
        seq!["yaml"@, "yml"@, "properties"@]
    } else {
        Seq::empty()
    }
}

/// The formats that a file with the extension `ext`, in lower case, can be
/// converted to.
pub fn output_formats_for_extension(ext: &str) -> (r: Vec<String>)
    ensures
        names_view(r@) == output_formats_for(ext@),
{
    let kind = file_type_of_extension(ext);
    let mut list: Vec<String> = Vec::new();
    assert(names_view(list@) =~= Seq::<Seq<char>>::empty());
    if kind == Some(FileType::Image) {
        return get_supported_output_formats(FileType::Image);
    } else if same_str(ext, "md") || same_str(ext, "markdown") {
        push_name(&mut list, "html");
        push_name(&mut list, "txt");
        push_name(&mut list, "docx");
        push_name(&mut list, "pptx");
        push_name(&mut list, "pdf");
    } else if same_str(ext, "html") || same_str(ext, "htm") || same_str(ext, "txt") {
        push_name(&mut list, "html");
        push_name(&mut list, "txt");
    } else if same_str(ext, "docx") || same_str(ext, "pptx") {
        push_name(&mut list, "md");
    } else if same_str(ext, "epub") {
        push_name(&mut list, "pdf");
    } else if kind == Some(FileType::Video) {
        push_name(&mut list, "mp3");
        push_name(&mut list, "wav");
        push_name(&mut list, "aac");
        push_name(&mut list, "flac");
    } else if same_str(ext, "yaml") || same_str(ext, "yml") {
        push_name(&mut list, "properties");
        push_name(&mut list, "json");
    } else if same_str(ext, "properties") {
        push_name(&mut list, "yaml");
        push_name(&mut list, "yml");
        push_name(&mut list, "json");
    } else if same_str(ext, "json") {
        push_name(&mut list, "yaml");
        push_name(&mut list, "yml");
        push_name(&mut list, "properties");
    }
    assert(names_view(list@) =~= output_formats_for(ext@));
    list
}

/// The formats that a file with the extension `extension` can be converted
/// to; the extension may be in any case.
pub fn get_supported_output_formats_for_file(extension: &str) -> (r: Vec<String>)
    ensures
        names_view(r@) == output_formats_for(lowercase(extension@)),
{
    let ext = to_lowercase(extension);
    output_formats_for_extension(ext.as_str())
}

} // verus!
