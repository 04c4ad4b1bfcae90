//! Media files: which conversions are handed to the media tool.

use crate::api::names_view;
use crate::document::{exit_code, exit_code_text};
use crate::numeral::{decimal_of, decimal_text};
use crate::text::{lowercase, same_str, string_of, to_lowercase};
use vstd::prelude::*;
use vstd::string::StringExecFns;

verus! {

/// Whether `ext`, in lower case, is the extension of a video file.
pub open spec fn is_video(ext: Seq<char>) -> bool {
    ext == "mp4"@ || ext == "avi"@ || ext == "mkv"@ || ext == "mov"@ || ext == "webm"@ || ext
        == "flv"@
}

/// Whether `ext`, in lower case, names an audio format that can be written.
pub open spec fn is_audio_output(ext: Seq<char>) -> bool {
    ext == "mp3"@ || ext == "wav"@ || ext == "aac"@ || ext == "flac"@ || ext == "ogg"@ || ext
        == "m4a"@
}

/// The message for a pair of formats that the media tool is not asked for.
pub open spec fn unsupported_media(input: Seq<char>, output: Seq<char>) -> Seq<char> {
    "Unsupported media conversion: "@ + input + " -> "@ + output
}

/// Whether `ext`, in lower case, is the extension of a video file.
pub fn video_extension(ext: &str) -> (r: bool)
    ensures
        r == is_video(ext@),
{
    same_str(ext, "mp4") || same_str(ext, "avi") || same_str(ext, "mkv") || same_str(ext, "mov")
        || same_str(ext, "webm") || same_str(ext, "flv")
}

/// Whether `ext`, in lower case, names an audio format that can be written.
pub fn audio_output(ext: &str) -> (r: bool)
    ensures
        r == is_audio_output(ext@),
{
    same_str(ext, "mp3") || same_str(ext, "wav") || same_str(ext, "aac") || same_str(ext, "flac")
        || same_str(ext, "ogg") || same_str(ext, "m4a")
}

/// Decides a media conversion, both extensions in lower case: the audio track
/// of a video can be written, in the format `output`; for any other pair the
/// message says so.
pub fn media_route(input: &str, output: &str) -> (r: Result<(), String>)
    ensures
        match r {
            Ok(_) => is_video(input@) && is_audio_output(output@),
            Err(m) => !(is_video(input@) && is_audio_output(output@)) && m@ == unsupported_media(
                input@,
                output@,
            ),
        },
{
    if video_extension(input) && audio_output(output) {
        Ok(())
    } else {
        let mut m = String::from_str("Unsupported media conversion: ");
        m.append(input);
        m.append(" -> ");
        m.append(output);
        Err(m)
    }
}

/// Decides the conversion of a media file with the extension `input_ext` to
/// the format `output_format`, either in any case. `Ok` holds the extension of
/// the file to write, for the media tool to fill; `Err` the message for a pair
/// that is not supported.
pub fn convert_media(input_ext: &str, output_format: &str) -> (r: Result<String, String>)
    ensures
        match r {
            Ok(ext) => is_video(lowercase(input_ext@)) && is_audio_output(
                lowercase(output_format@),
            ) && ext@ == lowercase(output_format@),
            Err(m) => !(is_video(lowercase(input_ext@)) && is_audio_output(
                lowercase(output_format@),
            )) && m@ == unsupported_media(lowercase(input_ext@), lowercase(output_format@)),
        },
{
    let input = to_lowercase(input_ext);
    let output = to_lowercase(output_format);
    match media_route(input.as_str(), output.as_str()) {
        Ok(_) => Ok(output),
        Err(m) => Err(m),
    }
}

/// The message for a run of the media tool that failed.
pub open spec fn ffmpeg_failure_text(code: Option<i32>, stderr: Seq<char>) -> Seq<char> {
    "FFmpeg conversion failed (exit code: "@ + exit_code_text(code) + ").\n"@ + stderr
}

/// The message for a run of the media tool that failed.
pub fn ffmpeg_failure(code: Option<i32>, stderr: &str) -> (r: String)
    ensures
        r@ == ffmpeg_failure_text(code, stderr@),
{
    let mut out = String::from_str("FFmpeg conversion failed (exit code: ");
    out.append(exit_code(code).as_str());
    out.append(").\n");
    out.append(stderr);
    out
}

/// `q` held between `lo` and `hi`.
pub open spec fn clamped(q: int, lo: int, hi: int) -> int {
    if q < lo {
        lo
    } else if q > hi {
        hi
    } else {
        q
    }
}

/// The arguments that tell the media tool how to write the audio track in
/// the format `ext`, in lower case: the codec, then the quality from 0 to 9
/// for `mp3` (2 where none is asked for) and from 0 to 10 for `ogg` (5 where
/// none is asked for), or the bit rate in thousands for `aac` and `m4a` (192
/// where none is given); the sample rate last, where one is given. No
/// arguments for any other format.
pub open spec fn audio_arguments_of(
    ext: Seq<char>,
    quality: Option<i32>,
    bit_rate: Option<i32>,
    sample_rate: Option<i32>,
) -> Seq<Seq<char>> {
    let codec = if ext == "mp3"@ {
        seq![
            "-c:a"@,
            "libmp3lame"@,
            "-q:a"@,
            decimal_text(
                clamped(
                    match quality {
                        Some(q) => q as int,
                        None => 2,
                    },
                    0,
                    9,
                ),
            ),
        ]
    } else if ext == "wav"@ {
        seq!["-c:a"@, "pcm_s16le"@]
    } else if ext == "aac"@ || ext == "m4a"@ {
        seq![
            "-c:a"@,
            "aac"@,
            "-b:a"@,
            match bit_rate {
                Some(b) => decimal_text(b as int) + "k"@,
                None => "192k"@,
            },
        ]
    } else if ext == "flac"@ {
        seq!["-c:a"@, "flac"@]
    } else if ext == "ogg"@ {
        seq![
            "-c:a"@,
            "libvorbis"@,
            "-q:a"@,
            decimal_text(
                clamped(
                    match quality {
                        Some(q) => q as int,
                        None => 5,
                    },
                    0,
                    10,
                ),
            ),
        ]
    } else {
        Seq::empty()
    };
    match sample_rate {
        Some(r) => if is_audio_output(ext) {
            codec + seq!["-ar"@, decimal_text(r as int)]
        } else {
            codec
        },
        None => codec,
    }
}

/// Adds an argument to a list.
fn push_argument(list: &mut Vec<String>, argument: String)
    ensures
        names_view(final(list)@) == names_view(old(list)@).push(argument@),
{
    list.push(argument);
    assert(names_view(list@) =~= names_view(old(list)@).push(argument@));
}

/// `q` held between `lo` and `hi`, as decimal text.
fn clamped_text(q: i32, lo: i32, hi: i32) -> (r: String)
    requires
        lo <= hi,
    ensures
        r@ == decimal_text(clamped(q as int, lo as int, hi as int)),
{
    let held: i32 = if q < lo {
        lo
    } else if q > hi {
        hi
    } else {
        q
    };
    string_of(&decimal_of(held as i128))
}

/// The arguments that tell the media tool how to write the audio track in
/// the format `ext`, in lower case.
pub fn audio_arguments(
    ext: &str,
    quality: Option<i32>,
    bit_rate: Option<i32>,
    sample_rate: Option<i32>,
) -> (r: Vec<String>)
    ensures
        names_view(r@) == audio_arguments_of(ext@, quality, bit_rate, sample_rate),
{
    let mut list: Vec<String> = Vec::new();
    assert(names_view(list@) =~= Seq::<Seq<char>>::empty());
    if same_str(ext, "mp3") {
        push_argument(&mut list, String::from_str("-c:a"));
        push_argument(&mut list, String::from_str("libmp3lame"));
        push_argument(&mut list, String::from_str("-q:a"));
        let q: i32 = match quality {
            Some(q) => q,
            None => 2,
        };
        push_argument(&mut list, clamped_text(q, 0, 9));
    } else if same_str(ext, "wav") {
        push_argument(&mut list, String::from_str("-c:a"));
        push_argument(&mut list, String::from_str("pcm_s16le"));
    } else if same_str(ext, "aac") || same_str(ext, "m4a") {
        push_argument(&mut list, String::from_str("-c:a"));
        push_argument(&mut list, String::from_str("aac"));
        push_argument(&mut list, String::from_str("-b:a"));
        match bit_rate {
            Some(b) => {
                let mut rate = string_of(&decimal_of(b as i128));
                rate.append("k");
                push_argument(&mut list, rate);
            },
            None => {
                push_argument(&mut list, String::from_str("192k"));
            },
        }
    } else if same_str(ext, "flac") {
        push_argument(&mut list, String::from_str("-c:a"));
        push_argument(&mut list, String::from_str("flac"));
    } else if same_str(ext, "ogg") {
        push_argument(&mut list, String::from_str("-c:a"));
        push_argument(&mut list, String::from_str("libvorbis"));
        push_argument(&mut list, String::from_str("-q:a"));
        let q: i32 = match quality {
            Some(q) => q,
            None => 5,
        };
        push_argument(&mut list, clamped_text(q, 0, 10));
    }
    match sample_rate {
        Some(r) => {
            if audio_output(ext) {
                push_argument(&mut list, String::from_str("-ar"));
                push_argument(&mut list, string_of(&decimal_of(r as i128)));
            }
        },
        None => {},
    }
    assert(names_view(list@) =~= audio_arguments_of(ext@, quality, bit_rate, sample_rate));
    list
}

} // verus!
