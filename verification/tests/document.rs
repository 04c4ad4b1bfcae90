use convertx::document::{
    convert_document, convert_epub_to_pdf, convert_markdown_to_pdf, convert_to_html, convert_to_txt,
    convert_via_chromium, convert_via_pandoc, document_route, ebook_convert_failure,
    epub_after_pandoc, epub_message, exit_code, html_escape, output_name, pandoc_failure, rejection,
    DocumentRoute, EpubStep, ENGINE_NOTE, PAGE_HEAD, PAGE_TAIL, UNICODE_NOTE,
};
use convertx::markup::checkbox_mark;

#[test]
fn html_escape_writes_the_five_characters() {
    assert_eq!(html_escape("a < b & c > \"d\" 'e'"), "a &lt; b &amp; c &gt; &quot;d&quot; &#39;e&#39;");
    assert_eq!(html_escape("&amp;"), "&amp;amp;");
    assert_eq!(html_escape("plain"), "plain");
    assert_eq!(html_escape(""), "");
}

#[test]
fn plain_text_becomes_a_page_with_the_text_escaped() {
    assert_eq!(
        convert_to_html("1 < 2", "txt"),
        Ok("<!DOCTYPE html><html><head><meta charset=\"utf-8\"><title>Document</title></head><body><pre>1 &lt; 2</pre></body></html>".to_string())
    );
}

#[test]
fn html_stays_as_it_is_and_markdown_is_rendered() {
    assert_eq!(convert_to_html("<p>x</p>", "html"), Ok("<p>x</p>".to_string()));
    assert_eq!(convert_to_html("<p>x</p>", "htm"), Ok("<p>x</p>".to_string()));
    assert_eq!(convert_to_html("# Title\n\ntext *here*\n", "md"), Ok("<h1>Title</h1>\n<p>text <em>here</em></p>\n".to_string()));
    assert_eq!(convert_to_html("| a |\n|---|\n| b |\n", "markdown"), Ok("<p>| a |\n|---|\n| b |</p>\n".to_string()));
}

#[test]
fn text_of_another_kind_is_not_converted() {
    assert_eq!(convert_to_html("x", "rtf"), Err("Unsupported input format".to_string()));
    assert_eq!(convert_to_txt("x", "rtf"), Err("Unsupported input format".to_string()));
    assert_eq!(convert_to_txt("x", "MD"), Err("Unsupported input format".to_string()));
}

#[test]
fn markdown_loses_its_marks_as_plain_text() {
    assert_eq!(convert_to_txt("# Title\n## Sub\n### Deep\n**bold** __strong__ *it* _em_ `code`", "md"), Ok("Title\nSub\nDeep\nbold strong it em code".to_string()));
    assert_eq!(convert_to_txt("#### four", "markdown"), Ok("#four".to_string()));
    assert_eq!(convert_to_txt("a_b*c", "md"), Ok("abc".to_string()));
}

#[test]
fn markdown_stripping_agrees_with_replacing_one_mark_after_another() {
    for text in ["", "#", "# ", "## # ###  x", "***a***", "____", "a `b` *c* **d** _e_ __f__", "#\u{a0}x ### y"] {
        let expected = text.replace("### ", "").replace("## ", "").replace("# ", "").replace("**", "").replace("__", "").replace("*", "").replace("_", "").replace("`", "");
        assert_eq!(convert_to_txt(text, "md"), Ok(expected));
    }
}

#[test]
fn html_loses_its_tags_as_plain_text() {
    assert_eq!(convert_to_txt("<p>Hello <b>world</b></p>", "html"), Ok("Hello world".to_string()));
    assert_eq!(convert_to_txt("a <> b <c", "htm"), Ok("a <> b <c".to_string()));
    assert_eq!(convert_to_txt("1 < 2 > 0", "html"), Ok("1  0".to_string()));
}

#[test]
fn plain_text_stays_as_it_is() {
    assert_eq!(convert_to_txt("# not *markdown*", "txt"), Ok("# not *markdown*".to_string()));
}

#[test]
fn check_box_mark_goes_by_the_word_checked() {
    assert_eq!(checkbox_mark("<input type=\"checkbox\" checked=\"\" disabled=\"\" />"), "<span class=\"task-check task-check-done\">✓</span>");
    assert_eq!(checkbox_mark("<INPUT TYPE='checkbox' CHECKED>"), "<span class=\"task-check task-check-done\">✓</span>");
    assert_eq!(checkbox_mark("<input type=\"checkbox\" disabled=\"\" />"), "<span class=\"task-check task-check-todo\">✗</span>");
    assert_eq!(checkbox_mark(""), "<span class=\"task-check task-check-todo\">✗</span>");
}

fn percent_decode(s: &str) -> String {
    let b = s.as_bytes();
    let mut out: Vec<u8> = Vec::new();
    let mut i = 0;
    while i < b.len() {
        if b[i] == b'%' {
            out.push(u8::from_str_radix(&s[i + 1..i + 3], 16).unwrap());
            i += 3;
        } else {
            out.push(b[i]);
            i += 1;
        }
    }
    String::from_utf8(out).unwrap()
}

#[test]
fn page_for_the_browser_holds_the_rendered_text_with_marks() {
    let address = convert_via_chromium("- [x] done\n- [ ] todo\n\n| a | b |\n|---|---|\n| 1 | ü |\n").unwrap();
    let prefix = "data:text/html;charset=utf-8,";
    assert!(address.starts_with(prefix));
    let encoded = &address[prefix.len()..];
    assert!(encoded.bytes().all(|b| b.is_ascii_alphanumeric() || b"-._~%".contains(&b)));
    assert!(encoded.contains("%C3%BC"));
    let page = percent_decode(encoded);
    assert!(page.starts_with(PAGE_HEAD));
    assert!(page.ends_with(PAGE_TAIL));
    assert!(page.starts_with("<!DOCTYPE html>\n<html>\n<head>\n    <meta charset=\"UTF-8\">"));
    assert!(page.contains("        body {\n            font-family: -apple-system,"));
    assert!(page.ends_with("\n</body>\n</html>"));
    let body = &page[PAGE_HEAD.len()..page.len() - PAGE_TAIL.len()];
    assert!(body.contains("<span class=\"task-check task-check-done\">✓</span> done"));
    assert!(body.contains("<span class=\"task-check task-check-todo\">✗</span> todo"));
    assert!(!body.contains("<input"));
    assert!(body.contains("<table>"));
    assert_eq!(convert_markdown_to_pdf("x"), convert_via_chromium("x"));
}

#[test]
fn routes_between_markdown_and_office_go_to_the_document_tool() {
    for (i, o) in [("md", "docx"), ("md", "pptx"), ("markdown", "docx"), ("docx", "md"), ("pptx", "md"), ("md", "md"), ("markdown", "md")] {
        assert_eq!(document_route(i, o), DocumentRoute::Pandoc);
    }
    for (i, o) in [("docx", "pptx"), ("pptx", "docx"), ("docx", "docx")] {
        assert_eq!(document_route(i, o), DocumentRoute::ToOther);
    }
}

#[test]
fn routes_follow_the_order_of_the_rules() {
    assert_eq!(document_route("md", "pdf"), DocumentRoute::MarkdownToPdf);
    assert_eq!(document_route("markdown", "pdf"), DocumentRoute::MarkdownToPdf);
    assert_eq!(document_route("pdf", "txt"), DocumentRoute::FromPdf);
    assert_eq!(document_route("pdf", "md"), DocumentRoute::FromPdf);
    assert_eq!(document_route("epub", "pdf"), DocumentRoute::EpubToPdf);
    assert_eq!(document_route("epub", "html"), DocumentRoute::FromEpub);
    assert_eq!(document_route("md", "html"), DocumentRoute::ToHtml);
    assert_eq!(document_route("txt", "html"), DocumentRoute::ToHtml);
    assert_eq!(document_route("html", "txt"), DocumentRoute::ToTxt);
    assert_eq!(document_route("txt", "pdf"), DocumentRoute::ToPdf);
    assert_eq!(document_route("html", "pdf"), DocumentRoute::ToPdf);
    assert_eq!(document_route("txt", "rtf"), DocumentRoute::ToOther);
    assert_eq!(document_route("txt", "md"), DocumentRoute::ToOther);
    assert_eq!(convert_document("MD", "PDF"), DocumentRoute::MarkdownToPdf);
    assert_eq!(convert_document("Docx", "Md"), DocumentRoute::Pandoc);
}

#[test]
fn unsupported_routes_have_their_messages() {
    assert_eq!(rejection(DocumentRoute::FromPdf, "txt"), Some("PDF input conversion is not supported.".to_string()));
    assert_eq!(rejection(DocumentRoute::FromEpub, "txt"), Some("EPUB currently only supports PDF output".to_string()));
    assert_eq!(
        rejection(DocumentRoute::ToPdf, "pdf"),
        Some("PDF output is not supported for this input type (only Markdown -> PDF and EPUB -> PDF are supported).".to_string())
    );
    assert_eq!(rejection(DocumentRoute::ToOther, "rtf"), Some("Unsupported output format: rtf".to_string()));
    for r in [DocumentRoute::Pandoc, DocumentRoute::MarkdownToPdf, DocumentRoute::EpubToPdf, DocumentRoute::ToHtml, DocumentRoute::ToTxt] {
        assert_eq!(rejection(r, "x"), None);
    }
}

#[test]
fn epub_steps_prefer_the_document_tool() {
    assert_eq!(convert_epub_to_pdf(true, true), EpubStep::RunPandoc);
    assert_eq!(convert_epub_to_pdf(true, false), EpubStep::RunPandoc);
    assert_eq!(convert_epub_to_pdf(false, true), EpubStep::RunEbookConvert);
    assert_eq!(convert_epub_to_pdf(false, false), EpubStep::NoTool);
    assert_eq!(epub_after_pandoc(true, false), EpubStep::Done);
    assert_eq!(epub_after_pandoc(true, true), EpubStep::Done);
    assert_eq!(epub_after_pandoc(false, true), EpubStep::RunEbookConvert);
    assert_eq!(epub_after_pandoc(false, false), EpubStep::PandocFailed);
    assert!(epub_message(EpubStep::NoTool).unwrap().starts_with("Neither pandoc nor calibre (ebook-convert) was detected."));
    assert!(epub_message(EpubStep::NoTool).unwrap().ends_with("- winget install calibre.calibre"));
    assert!(epub_message(EpubStep::PandocFailed).unwrap().starts_with("pandoc conversion failed and calibre"));
    assert_eq!(epub_message(EpubStep::Done), None);
    assert_eq!(epub_message(EpubStep::RunPandoc), None);
    assert_eq!(epub_message(EpubStep::RunEbookConvert), None);
}

#[test]
fn exit_code_is_shown_as_an_option() {
    assert_eq!(exit_code(Some(1)), "Some(1)");
    assert_eq!(exit_code(Some(-11)), "Some(-11)");
    assert_eq!(exit_code(Some(i32::MIN)), format!("{:?}", Some(i32::MIN)));
    assert_eq!(exit_code(None), "None");
}

#[test]
fn tool_failure_message_holds_code_and_output() {
    assert_eq!(pandoc_failure(Some(43), "boom", "docx"), "Pandoc conversion failed (exit code: Some(43)).\nboom");
    assert_eq!(pandoc_failure(None, "xelatex not found", "docx"), "Pandoc conversion failed (exit code: None).\nxelatex not found");
    assert_eq!(ebook_convert_failure(Some(1), "bad"), "EPUB->PDF conversion failed (ebook-convert exit code: Some(1)).\nbad");
}

#[test]
fn tool_failure_message_for_a_pdf_adds_a_note() {
    let engine = pandoc_failure(Some(47), "XeLaTeX not found", "pdf");
    assert_eq!(engine, format!("Pandoc conversion failed (exit code: Some(47)).\nXeLaTeX not found{}", ENGINE_NOTE));
    let character = pandoc_failure(Some(43), "! LaTeX Error: Unicode character X (U+4E2D)\n not set up for use with LaTeX.", "pdf");
    assert!(character.ends_with(UNICODE_NOTE));
    assert!(!character.contains(ENGINE_NOTE));
    let plain = pandoc_failure(Some(1), "file not found", "pdf");
    assert_eq!(plain, "Pandoc conversion failed (exit code: Some(1)).\nfile not found");
    assert!(UNICODE_NOTE.starts_with("\n\nUnicode/CJK character error detected:"));
    assert!(ENGINE_NOTE.starts_with("\n\nPDF generation notes (Windows):"));
}

#[test]
fn output_name_is_stem_dot_format_in_lower_case() {
    assert_eq!(output_name(Some("report"), "PDF"), "report.pdf");
    assert_eq!(output_name(Some("a.b"), "json"), "a.b.json");
    assert_eq!(output_name(None, "Yaml"), "output.yaml");
    assert_eq!(output_name(Some(""), ""), ".");
}

#[test]
fn document_tool_gets_the_pdf_engine_for_a_pdf_only() {
    assert_eq!(convert_via_pandoc("pdf"), vec!["--pdf-engine=xelatex"]);
    assert_eq!(convert_via_pandoc("PDF"), vec!["--pdf-engine=xelatex"]);
    let none: Vec<String> = Vec::new();
    assert_eq!(convert_via_pandoc("docx"), none);
    assert_eq!(convert_via_pandoc("md"), none);
    assert_eq!(convert_via_pandoc(""), none);
}

#[test]
fn tool_failure_message_takes_the_extension_in_any_case() {
    assert_eq!(pandoc_failure(Some(47), "XeLaTeX not found", "PDF"), pandoc_failure(Some(47), "XeLaTeX not found", "pdf"));
    assert!(pandoc_failure(Some(47), "XeLaTeX not found", "Pdf").ends_with(ENGINE_NOTE));
}
