use convertx::api::{
    detect_file_type, file_type_of_extension, get_supported_output_formats,
    get_supported_output_formats_for_file, output_formats_for_extension, ConvertOptions,
    ConvertProgress, ConvertResult, FileType,
};
use convertx::image::{convert_image, jpeg_quality, ImageKind};
use convertx::media::{audio_arguments, convert_media, ffmpeg_failure, media_route};

#[test]
fn extensions_name_the_kind_of_file() {
    for e in ["png", "jpg", "jpeg", "webp", "bmp", "ico", "svg", "gif"] {
        assert_eq!(file_type_of_extension(e), Some(FileType::Image));
    }
    for e in ["pdf", "md", "markdown", "html", "htm", "txt", "doc", "docx", "ppt", "pptx", "epub"] {
        assert_eq!(file_type_of_extension(e), Some(FileType::Document));
    }
    for e in ["mp3", "wav", "flac", "aac", "ogg", "m4a"] {
        assert_eq!(file_type_of_extension(e), Some(FileType::Audio));
    }
    for e in ["mp4", "avi", "mkv", "mov", "webm", "flv"] {
        assert_eq!(file_type_of_extension(e), Some(FileType::Video));
    }
    for e in ["yaml", "yml", "properties", "json"] {
        assert_eq!(file_type_of_extension(e), Some(FileType::Config));
    }
    for e in ["", "exe", "PNG", "yaml ", "tar.gz"] {
        assert_eq!(file_type_of_extension(e), None);
    }
}

#[test]
fn detection_takes_the_extension_in_any_case() {
    assert_eq!(detect_file_type("PNG"), Some(FileType::Image));
    assert_eq!(detect_file_type("Yml"), Some(FileType::Config));
    assert_eq!(detect_file_type("xyz"), None);
}

#[test]
fn result_holds_a_path_or_a_message_never_both() {
    let ok = ConvertResult::succeeded("out/a.json".to_string());
    assert!(ok.success);
    assert_eq!(ok.output_path, Some("out/a.json".to_string()));
    assert_eq!(ok.error, None);
    let bad = ConvertResult::failed("no".to_string());
    assert!(!bad.success);
    assert_eq!(bad.output_path, None);
    assert_eq!(bad.error, Some("no".to_string()));
}

#[test]
fn audio_track_of_a_video_is_handed_to_the_media_tool() {
    for v in ["mp4", "avi", "mkv", "mov", "webm", "flv"] {
        for a in ["mp3", "wav", "aac", "flac", "ogg", "m4a"] {
            assert_eq!(media_route(v, a), Ok(()));
        }
    }
    assert_eq!(convert_media("MP4", "Mp3"), Ok("mp3".to_string()));
}

#[test]
fn other_media_pairs_are_unsupported() {
    assert_eq!(media_route("mp3", "wav"), Err("Unsupported media conversion: mp3 -> wav".to_string()));
    assert_eq!(media_route("mp4", "avi"), Err("Unsupported media conversion: mp4 -> avi".to_string()));
    assert_eq!(convert_media("WAV", "MP3"), Err("Unsupported media conversion: wav -> mp3".to_string()));
    assert_eq!(convert_media("", ""), Err("Unsupported media conversion:  -> ".to_string()));
}

#[test]
fn kinds_list_their_output_formats() {
    assert_eq!(get_supported_output_formats(FileType::Image), vec!["png", "jpg", "jpeg", "webp", "bmp", "ico", "gif"]);
    assert_eq!(get_supported_output_formats(FileType::Document), vec!["html", "txt", "pdf"]);
    assert_eq!(get_supported_output_formats(FileType::Audio), vec!["mp3", "wav", "flac", "aac", "ogg"]);
    assert_eq!(get_supported_output_formats(FileType::Video), vec!["mp4", "avi", "mkv", "webm"]);
    assert_eq!(get_supported_output_formats(FileType::Config), vec!["yaml", "yml", "properties", "json"]);
}

#[test]
fn files_list_the_output_formats_of_their_extension() {
    let none: Vec<String> = Vec::new();
    for e in ["png", "jpg", "jpeg", "webp", "bmp", "ico", "svg", "gif"] {
        assert_eq!(output_formats_for_extension(e), vec!["png", "jpg", "jpeg", "webp", "bmp", "ico", "gif"]);
    }
    assert_eq!(output_formats_for_extension("md"), vec!["html", "txt", "docx", "pptx", "pdf"]);
    assert_eq!(output_formats_for_extension("markdown"), vec!["html", "txt", "docx", "pptx", "pdf"]);
    for e in ["html", "htm", "txt"] {
        assert_eq!(output_formats_for_extension(e), vec!["html", "txt"]);
    }
    assert_eq!(output_formats_for_extension("docx"), vec!["md"]);
    assert_eq!(output_formats_for_extension("pptx"), vec!["md"]);
    assert_eq!(output_formats_for_extension("epub"), vec!["pdf"]);
    for e in ["pdf", "mp3", "wav", "flac", "aac", "ogg", "m4a", "doc", "ppt", "", "zip"] {
        assert_eq!(output_formats_for_extension(e), none);
    }
    for e in ["mp4", "avi", "mkv", "mov", "webm", "flv"] {
        assert_eq!(output_formats_for_extension(e), vec!["mp3", "wav", "aac", "flac"]);
    }
    assert_eq!(output_formats_for_extension("yaml"), vec!["properties", "json"]);
    assert_eq!(output_formats_for_extension("yml"), vec!["properties", "json"]);
    assert_eq!(output_formats_for_extension("properties"), vec!["yaml", "yml", "json"]);
    assert_eq!(output_formats_for_extension("json"), vec!["yaml", "yml", "properties"]);
    assert_eq!(get_supported_output_formats_for_file("JSON"), vec!["yaml", "yml", "properties"]);
    assert_eq!(get_supported_output_formats_for_file("Mp4"), vec!["mp3", "wav", "aac", "flac"]);
}

#[test]
fn image_formats_and_jpeg_quality() {
    assert_eq!(convert_image("png"), Ok(ImageKind::Png));
    assert_eq!(convert_image("jpg"), Ok(ImageKind::Jpeg));
    assert_eq!(convert_image("jpeg"), Ok(ImageKind::Jpeg));
    assert_eq!(convert_image("webp"), Ok(ImageKind::WebP));
    assert_eq!(convert_image("bmp"), Ok(ImageKind::Bmp));
    assert_eq!(convert_image("ico"), Ok(ImageKind::Ico));
    assert_eq!(convert_image("gif"), Ok(ImageKind::Gif));
    assert_eq!(convert_image("svg"), Err("Unsupported output format: svg".to_string()));
    assert_eq!(convert_image("PNG"), Err("Unsupported output format: PNG".to_string()));
    assert_eq!(jpeg_quality(None), 85);
    assert_eq!(jpeg_quality(Some(0)), 1);
    assert_eq!(jpeg_quality(Some(-5)), 1);
    assert_eq!(jpeg_quality(Some(1)), 1);
    assert_eq!(jpeg_quality(Some(60)), 60);
    assert_eq!(jpeg_quality(Some(100)), 100);
    assert_eq!(jpeg_quality(Some(101)), 100);
    assert_eq!(jpeg_quality(Some(i32::MAX)), 100);
}

#[test]
fn media_tool_failure_message_holds_code_and_output() {
    assert_eq!(ffmpeg_failure(Some(1), "no stream"), "FFmpeg conversion failed (exit code: Some(1)).\nno stream");
    assert_eq!(ffmpeg_failure(None, ""), "FFmpeg conversion failed (exit code: None).\n");
}

#[test]
fn audio_arguments_name_codec_and_quality() {
    assert_eq!(audio_arguments("mp3", None, None, None), vec!["-c:a", "libmp3lame", "-q:a", "2"]);
    assert_eq!(audio_arguments("mp3", Some(7), None, None), vec!["-c:a", "libmp3lame", "-q:a", "7"]);
    assert_eq!(audio_arguments("mp3", Some(50), None, None), vec!["-c:a", "libmp3lame", "-q:a", "9"]);
    assert_eq!(audio_arguments("mp3", Some(-1), None, None), vec!["-c:a", "libmp3lame", "-q:a", "0"]);
    assert_eq!(audio_arguments("ogg", None, None, None), vec!["-c:a", "libvorbis", "-q:a", "5"]);
    assert_eq!(audio_arguments("ogg", Some(11), None, None), vec!["-c:a", "libvorbis", "-q:a", "10"]);
    assert_eq!(audio_arguments("wav", Some(3), Some(1), None), vec!["-c:a", "pcm_s16le"]);
    assert_eq!(audio_arguments("flac", None, None, None), vec!["-c:a", "flac"]);
    assert_eq!(audio_arguments("aac", None, None, None), vec!["-c:a", "aac", "-b:a", "192k"]);
    assert_eq!(audio_arguments("m4a", Some(1), Some(256), None), vec!["-c:a", "aac", "-b:a", "256k"]);
    let none: Vec<String> = Vec::new();
    assert_eq!(audio_arguments("mp4", Some(1), Some(1), Some(1)), none);
}

#[test]
fn audio_arguments_end_with_the_sample_rate() {
    assert_eq!(audio_arguments("wav", None, None, Some(44100)), vec!["-c:a", "pcm_s16le", "-ar", "44100"]);
    assert_eq!(audio_arguments("mp3", None, None, Some(48000)), vec!["-c:a", "libmp3lame", "-q:a", "2", "-ar", "48000"]);
    assert_eq!(audio_arguments("m4a", None, Some(128), Some(8000)), vec!["-c:a", "aac", "-b:a", "128k", "-ar", "8000"]);
}

#[test]
fn options_and_progress_hold_what_they_are_given() {
    let options = ConvertOptions {
        output_format: "json".to_string(),
        quality: Some(80),
        width: None,
        height: Some(600),
        ffmpeg_path: None,
    };
    let copy = options.clone();
    assert_eq!(copy.output_format, "json");
    assert_eq!(copy.quality, Some(80));
    assert_eq!(copy.width, None);
    assert_eq!(copy.height, Some(600));
    assert_eq!(copy.ffmpeg_path, None);
    let progress = ConvertProgress { task_id: "t1".to_string(), progress: 40, status: "running".to_string() };
    assert_eq!(progress.clone().progress, 40);
    assert_eq!(progress.task_id, "t1");
    assert_eq!(progress.status, "running");
}
