use esox::dispatch::{
    all_files, dispatch, is_image_ext_lowercase, output_format_from_lowercase, quality_from_lowercase, first_file, is_image_ext, parse_output_format, parse_page_ranges, parse_quality, select_val,
    text_val, trimmed, OutputFormat, Quality, ToolRequest,
};
use esox::form::{DropStates, FormState};

#[test]
fn page_ranges_mixed() {
    assert_eq!(parse_page_ranges("1-3, 5, 7-10"), Ok(vec![(1, 3), (5, 5), (7, 10)]));
    assert_eq!(parse_page_ranges(" 2 - 4 ,,"), Ok(vec![(2, 4)]));
    assert_eq!(parse_page_ranges("+3"), Ok(vec![(3, 3)]));
}

#[test]
fn page_ranges_errors() {
    assert_eq!(parse_page_ranges(""), Err("No page ranges specified".to_string()));
    assert_eq!(parse_page_ranges(" , "), Err("No page ranges specified".to_string()));
    assert_eq!(parse_page_ranges("0"), Err("Page numbers start at 1".to_string()));
    assert_eq!(parse_page_ranges("3-1"), Err("Invalid range: 3-1".to_string()));
    assert_eq!(parse_page_ranges("0-2"), Err("Invalid range: 0-2".to_string()));
    assert_eq!(parse_page_ranges("x"), Err("Invalid page: x".to_string()));
    assert_eq!(parse_page_ranges("x-2"), Err("Invalid page: x".to_string()));
    assert_eq!(parse_page_ranges("1- y"), Err("Invalid page:  y".to_string()));
    assert_eq!(parse_page_ranges("5, 4294967296"), Err("Invalid page: 4294967296".to_string()));
}

#[test]
fn quality_names() {
    assert_eq!(parse_quality("best"), Quality::Best);
    assert_eq!(parse_quality("1080P"), Quality::High);
    assert_eq!(parse_quality("720p"), Quality::Medium);
    assert_eq!(parse_quality("480p"), Quality::Low);
    assert_eq!(parse_quality("Audio-Only"), Quality::Best);
    assert_eq!(parse_quality("4K"), Quality::Custom("4k".to_string()));
}

#[test]
fn output_format_names() {
    assert_eq!(parse_output_format("MKV"), OutputFormat::Mkv);
    assert_eq!(parse_output_format("jpeg"), OutputFormat::Jpg);
    assert_eq!(parse_output_format("jpg"), OutputFormat::Jpg);
    assert_eq!(parse_output_format("h265"), OutputFormat::Hevc);
    assert_eq!(parse_output_format("hevc"), OutputFormat::Hevc);
    assert_eq!(parse_output_format("opus"), OutputFormat::Opus);
    assert_eq!(parse_output_format("tar"), OutputFormat::Original);
}

#[test]
fn image_extensions() {
    assert!(is_image_ext("photos/cat.PNG"));
    assert!(is_image_ext("a.tiff"));
    assert!(!is_image_ext("movie.mp4"));
    assert!(!is_image_ext("README"));
    assert!(!is_image_ext(".png"));
}

#[test]
fn trimmed_text() {
    assert_eq!(trimmed("  hi there \t"), "hi there");
    assert_eq!(trimmed("   "), "");
}

#[test]
fn form_values() {
    let mut form = FormState::new();
    form.set_text("download", "__input__", "  https://example.com/v  ".to_string());
    form.set_text("trim", "start", "   ".to_string());
    assert_eq!(text_val(&form, "download", "__input__"), Some("https://example.com/v".to_string()));
    assert_eq!(text_val(&form, "trim", "start"), None);
    assert_eq!(text_val(&form, "trim", "end"), None);

    // A dropdown with nothing selected gives its first choice.
    assert_eq!(select_val(&form, "download", "quality"), Some("best".to_string()));
    form.set_selected("download", "quality", 2);
    assert_eq!(select_val(&form, "download", "quality"), Some("720p".to_string()));
    form.set_selected("download", "format", 40);
    assert_eq!(select_val(&form, "download", "format"), Some(String::new()));
    // Not a dropdown, or no such option or tool.
    assert_eq!(select_val(&form, "trim", "start"), None);
    assert_eq!(select_val(&form, "download", "speed"), None);
    assert_eq!(select_val(&form, "nope", "quality"), None);
}

#[test]
fn drop_zone_files() {
    let mut drop = DropStates::new();
    assert_eq!(first_file(&drop, "zip"), None);
    assert!(all_files(&drop, "zip").is_empty());
    drop.add_file("zip", "/tmp/a.txt".to_string());
    drop.add_file("zip", "/tmp/b.txt".to_string());
    assert_eq!(first_file(&drop, "zip"), Some("/tmp/a.txt".to_string()));
    assert_eq!(all_files(&drop, "zip"), vec!["/tmp/a.txt".to_string(), "/tmp/b.txt".to_string()]);
    assert_eq!(first_file(&drop, "unzip"), None);
}

#[test]
fn dialog_flow() {
    let mut drop = DropStates::new();
    assert!(drop.begin_dialog("pdf-merge"));
    assert!(drop.get("pdf-merge").unwrap().dialog_pending);
    // A second dialog is not opened while one is pending.
    assert!(!drop.begin_dialog("pdf-merge"));
    // Unknown tools get no dialog.
    assert!(!drop.begin_dialog("nope"));
    assert!(drop.get("nope").is_none());
    drop.finish_dialog("pdf-merge", vec!["/d/a.pdf".to_string(), "/d/b.pdf".to_string()]);
    assert!(!drop.get("pdf-merge").unwrap().dialog_pending);
    assert_eq!(all_files(&drop, "pdf-merge").len(), 2);
    // A cancelled dialog keeps the earlier files.
    assert!(drop.begin_dialog("pdf-merge"));
    drop.finish_dialog("pdf-merge", Vec::new());
    assert_eq!(all_files(&drop, "pdf-merge").len(), 2);
}

#[test]
fn dispatch_missing_inputs() {
    let form = FormState::new();
    let drop = DropStates::new();
    let err = |t: &'static str| match dispatch(t, &form, &drop) {
        Err(e) => e,
        Ok(r) => panic!("expected an error, got {:?}", r),
    };
    assert_eq!(err("download"), "Enter a URL to download");
    assert_eq!(err("trim"), "Select a file to trim");
    assert_eq!(err("convert"), "Select a file to convert");
    assert_eq!(err("resize"), "Select an image to resize");
    assert_eq!(err("compress-image"), "Select an image to compress");
    assert_eq!(err("pdf-split"), "Select a PDF to split");
    assert_eq!(err("pdf-merge"), "Select at least 2 PDFs to merge");
    assert_eq!(err("pdf-compress"), "Select a PDF to compress");
    assert_eq!(err("qr-gen"), "Enter text or URL to encode");
    assert_eq!(err("qr-decode"), "Select a QR code image");
    assert_eq!(err("zip"), "Select files to zip");
    assert_eq!(err("unzip"), "Select a zip file to extract");
    assert_eq!(err("teleport"), "Unknown tool: teleport");
}

#[test]
fn dispatch_download_request() {
    let mut form = FormState::new();
    let drop = DropStates::new();
    form.set_text("download", "__input__", " https://v.example/1 ".to_string());
    form.set_selected("download", "quality", 4);
    form.set_selected("download", "format", 3);
    match dispatch("download", &form, &drop) {
        Ok(ToolRequest::Download { url, quality, output_format, audio_only }) => {
            assert_eq!(url, "https://v.example/1");
            assert_eq!(quality, Quality::Best);
            assert_eq!(output_format, OutputFormat::Mp3);
            assert!(audio_only);
        },
        other => panic!("unexpected {:?}", other),
    }
}

#[test]
fn dispatch_file_requests() {
    let mut form = FormState::new();
    let mut drop = DropStates::new();
    drop.add_file("convert", "/m/clip.JPG".to_string());
    form.set_selected("convert", "format", 11);
    match dispatch("convert", &form, &drop) {
        Ok(ToolRequest::Convert { path, format, image }) => {
            assert_eq!(path, "/m/clip.JPG");
            assert_eq!(format, OutputFormat::Gif);
            assert!(image);
        },
        other => panic!("unexpected {:?}", other),
    }

    drop.add_file("trim", "/m/a.mp4".to_string());
    assert_eq!(dispatch("trim", &form, &drop).unwrap_err(), "Specify at least a start or end time");
    form.set_text("trim", "end", "01:30".to_string());
    match dispatch("trim", &form, &drop) {
        Ok(ToolRequest::Trim { path, start, end }) => {
            assert_eq!(path, "/m/a.mp4");
            assert_eq!(start, None);
            assert_eq!(end, Some("01:30".to_string()));
        },
        other => panic!("unexpected {:?}", other),
    }

    drop.add_file("resize", "/p/x.png".to_string());
    assert_eq!(dispatch("resize", &form, &drop).unwrap_err(), "Specify width, height, or scale");
    form.set_text("resize", "width", "640".to_string());
    form.set_text("resize", "height", "tall".to_string());
    match dispatch("resize", &form, &drop) {
        Ok(ToolRequest::Resize { width, height, scale, .. }) => {
            assert_eq!(width, Some(640));
            assert_eq!(height, None);
            assert_eq!(scale, None);
        },
        other => panic!("unexpected {:?}", other),
    }

    drop.add_file("compress-image", "/p/y.jpg".to_string());
    form.set_text("compress-image", "quality", "300".to_string());
    match dispatch("compress-image", &form, &drop) {
        Ok(ToolRequest::CompressImage { quality, .. }) => assert_eq!(quality, 80),
        other => panic!("unexpected {:?}", other),
    }
    form.set_text("compress-image", "quality", " 55 ".to_string());
    match dispatch("compress-image", &form, &drop) {
        Ok(ToolRequest::CompressImage { quality, .. }) => assert_eq!(quality, 55),
        other => panic!("unexpected {:?}", other),
    }

    drop.add_file("pdf-split", "/d/book.pdf".to_string());
    assert_eq!(dispatch("pdf-split", &form, &drop).unwrap_err(), "Specify page ranges");
    form.set_text("pdf-split", "ranges", "2-1".to_string());
    assert_eq!(dispatch("pdf-split", &form, &drop).unwrap_err(), "Invalid range: 2-1");
    form.set_text("pdf-split", "ranges", "1-2, 4".to_string());
    match dispatch("pdf-split", &form, &drop) {
        Ok(ToolRequest::PdfSplit { path, ranges }) => {
            assert_eq!(path, "/d/book.pdf");
            assert_eq!(ranges, vec![(1, 2), (4, 4)]);
        },
        other => panic!("unexpected {:?}", other),
    }

    drop.add_file("pdf-compress", "/d/big.pdf".to_string());
    match dispatch("pdf-compress", &form, &drop) {
        Ok(ToolRequest::PdfCompress { quality, .. }) => assert_eq!(quality, "screen"),
        other => panic!("unexpected {:?}", other),
    }

    drop.add_file("pdf-merge", "/d/1.pdf".to_string());
    assert!(dispatch("pdf-merge", &form, &drop).is_err());
    drop.add_file("pdf-merge", "/d/2.pdf".to_string());
    match dispatch("pdf-merge", &form, &drop) {
        Ok(ToolRequest::PdfMerge { files }) => assert_eq!(files.len(), 2),
        other => panic!("unexpected {:?}", other),
    }

    form.set_text("qr-gen", "__input__", "hello".to_string());
    match dispatch("qr-gen", &form, &drop) {
        Ok(ToolRequest::QrGen { text }) => assert_eq!(text, "hello"),
        other => panic!("unexpected {:?}", other),
    }
}

#[test]
fn image_extension_follows_the_file_name() {
    assert!(is_image_ext("shots/a.b.PNG"));
    assert!(!is_image_ext("shots/.png"));
    assert!(is_image_ext("shots/.x.png"));
    assert!(!is_image_ext("shots/png"));
    assert!(!is_image_ext("shots.png/readme"));
}

#[test]
fn lowercase_choices_select_directly() {
    assert!(matches!(quality_from_lowercase("720p".to_string()), Quality::Medium));
    assert!(matches!(quality_from_lowercase("audio-only".to_string()), Quality::Best));
    assert!(matches!(quality_from_lowercase("4k".to_string()), Quality::Custom(c) if c == "4k"));
    assert_eq!(output_format_from_lowercase("h265"), OutputFormat::Hevc);
    assert_eq!(output_format_from_lowercase("MP4"), OutputFormat::Original);
    assert!(is_image_ext_lowercase("tiff"));
    assert!(!is_image_ext_lowercase("PNG"));
}
