//! Documents: which conversion a pair of extensions asks for, and the texts
//! that are worked out before a tool is run or a file is written.

use crate::markup::{
    markdown_html, markdown_to_html, percent_encoded, regex_error, regex_new, regex_replace_all,
    regex_replaced, url_encode,
};
use crate::api::names_view;
use crate::numeral::{decimal_of, decimal_text};
use crate::text::{
    chars_of, contains_text, has_text, lowercase, remove_all, same_str, string_of, to_lowercase,
    without,
};
use vstd::prelude::*;
use vstd::string::StringExecFns;

verus! {

/// The start of the page that is printed for a Markdown text, up to the
/// rendered text.
pub const PAGE_HEAD: &'static str = "<!DOCTYPE html>
<html>
<head>
    <meta charset=\"UTF-8\">
    <meta name=\"viewport\" content=\"width=device-width, initial-scale=1.0\">
    <style>
        body {
            font-family: -apple-system, BlinkMacSystemFont, 'Segoe UI', Roboto, 'Helvetica Neue', Arial, sans-serif;
            line-height: 1.6;
            color: #333;
            max-width: 900px;
            margin: 0 auto;
            padding: 20px;
            background-color: #fff;
        }
        h1, h2, h3, h4, h5, h6 {
            margin-top: 24px;
            margin-bottom: 16px;
            font-weight: 600;
            line-height: 1.25;
        }
        h1 { font-size: 2em; border-bottom: 1px solid #eaecef; padding-bottom: 0.3em; }
        h2 { font-size: 1.5em; border-bottom: 1px solid #eaecef; padding-bottom: 0.3em; }
        h3 { font-size: 1.25em; }
        h4 { font-size: 1em; }
        h5 { font-size: 0.875em; }
        h6 { font-size: 0.85em; color: #6a737d; }
        p { margin: 0 0 16px 0; }
        a { color: #0366d6; text-decoration: none; }
        a:hover { text-decoration: underline; }
        code {
            background-color: #f6f8fa;
            padding: 0.2em 0.4em;
            margin: 0;
            font-size: 85%;
            border-radius: 3px;
            font-family: 'SFMono-Regular', Consolas, 'Liberation Mono', Menlo, monospace;
        }
        pre {
            background-color: #f6f8fa;
            border: 1px solid #ddd;
            border-radius: 3px;
            padding: 16px;
            overflow: auto;
            font-size: 85%;
            line-height: 1.45;
            margin: 0 0 16px 0;
        }
        pre code {
            background-color: transparent;
            padding: 0;
            margin: 0;
            font-size: 100%;
            border-radius: 0;
        }
        blockquote {
            padding: 0 1em;
            color: #6a737d;
            border-left: 0.25em solid #dfe2e5;
            margin: 0 0 16px 0;
        }
        table {
            border-collapse: collapse;
            width: 100%;
            margin: 0 0 16px 0;
        }
        table th, table td {
            padding: 6px 13px;
            border: 1px solid #dfe2e5;
        }
        table tr:nth-child(2n) {
            background-color: #f6f8fa;
        }
        ul, ol {
            padding-left: 2em;
            margin: 0 0 16px 0;
        }
        li {
            margin-bottom: 8px;
        }
        img {
            max-width: 100%;
            height: auto;
        }
        .task-check {
            display: inline-block;
            width: 1.2em;
            font-weight: 700;
            margin-right: 0.35em;
        }
        .task-check-done {
            color: #16a34a;
        }
        .task-check-todo {
            color: #dc2626;
        }
    </style>
</head>
<body>
";

/// The end of the page that is printed for a Markdown text.
pub const PAGE_TAIL: &'static str = "
</body>
</html>";

/// The start of the address under which a page is handed to the browser.
pub const PAGE_ADDRESS: &'static str = "data:text/html;charset=utf-8,";

/// The pattern of a check box in rendered Markdown.
pub const CHECKBOX_PATTERN: &'static str = "(?i)<input[^>]*type=(?:\\\"checkbox\\\"|'checkbox')[^>]*>";

/// The pattern of a tag in HTML.
pub const TAG_PATTERN: &'static str = "<[^>]+>";

/// How one character is written in HTML.
pub open spec fn html_unit(c: char) -> Seq<char> {
    if c == '&' {
        "&amp;"@
    } else if c == '<' {
        "&lt;"@
    } else if c == '>' {
        "&gt;"@
    } else if c == '"' {
        "&quot;"@
    } else if c == '\'' {
        "&#39;"@
    } else {
        seq![c]
    }
}

/// A text as it is written in HTML: each character as `html_unit` writes it.
pub open spec fn html_escaped(s: Seq<char>) -> Seq<char>
    decreases s.len(),
{
    if s.len() == 0 {
        Seq::empty()
    } else {
        html_escaped(s.drop_last()) + html_unit(s.last())
    }
}

/// Writes a text for HTML, with `&`, `<`, `>` and both quotes escaped.
pub fn html_escape(s: &str) -> (r: String)
    ensures
        r@ == html_escaped(s@),
{
    let v = chars_of(s);
    let mut out = String::new();
    let mut i: usize = 0;
    while i < v.len()
        invariant
            i <= v.len(),
            out@ == html_escaped(v@.take(i as int)),
        decreases v.len() - i,
    {
        let c: char = v[i];
        proof {
            assert(v@.take(i + 1).drop_last() == v@.take(i as int));
        }
        if c == '&' {
            out.append("&amp;");
        } else if c == '<' {
            out.append("&lt;");
        } else if c == '>' {
            out.append("&gt;");
        } else if c == '"' {
            out.append("&quot;");
        } else if c == '\'' {
            out.append("&#39;");
        } else {
            out.push(c);
        }
        i += 1;
    }
    proof {
        assert(v@.take(v@.len() as int) == v@);
    }
    out
}

/// Whether `ext`, in lower case, is an extension of Markdown.
pub open spec fn is_markdown(ext: Seq<char>) -> bool {
    ext == "md"@ || ext == "markdown"@
}

/// Whether `ext`, in lower case, is an extension of HTML.
pub open spec fn is_html(ext: Seq<char>) -> bool {
    ext == "html"@ || ext == "htm"@
}

/// The message for a text of a kind that is not converted.
pub open spec fn unsupported_input() -> Seq<char> {
    "Unsupported input format"@
}

/// The HTML page for a plain text.
pub open spec fn text_page(content: Seq<char>) -> Seq<char> {
    "<!DOCTYPE html><html><head><meta charset=\"utf-8\"><title>Document</title></head><body><pre>"@
        + html_escaped(content) + "</pre></body></html>"@
}

/// What a text with the extension `ext`, in lower case, is as HTML.
pub open spec fn as_html(content: Seq<char>, ext: Seq<char>) -> Result<Seq<char>, Seq<char>> {
    if is_markdown(ext) {
        Ok(markdown_html(content, false))
    } else if is_html(ext) {
        Ok(content)
    } else if ext == "txt"@ {
        Ok(text_page(content))
    } else {
        Err(unsupported_input())
    }
}

/// The result of a conversion as contracts speak of it.
pub open spec fn text_outcome(r: Result<String, String>) -> Result<Seq<char>, Seq<char>> {
    match r {
        Ok(s) => Ok(s@),
        Err(m) => Err(m@),
    }
}

/// Converts a text with the extension `input_ext`, in lower case, to HTML.
pub fn convert_to_html(content: &str, input_ext: &str) -> (r: Result<String, String>)
    ensures
        text_outcome(r) == as_html(content@, input_ext@),
{
    if same_str(input_ext, "md") || same_str(input_ext, "markdown") {
        Ok(markdown_to_html(content, false))
    } else if same_str(input_ext, "html") || same_str(input_ext, "htm") {
        Ok(String::from_str(content))
    } else if same_str(input_ext, "txt") {
        let mut out = String::from_str(
            "<!DOCTYPE html><html><head><meta charset=\"utf-8\"><title>Document</title></head><body><pre>",
        );
        let body = html_escape(content);
        out.append(body.as_str());
        out.append("</pre></body></html>");
        Ok(out)
    } else {
        Err(String::from_str("Unsupported input format"))
    }
}

/// A Markdown text without its marks: `### `, `## `, `# `, `**`, `__`, `*`,
/// `_` and the backtick are taken away, one kind after the other.
pub open spec fn markdown_stripped(content: Seq<char>) -> Seq<char> {
    let a = without(content, "### "@);
    let b = without(a, "## "@);
    let c = without(b, "# "@);
    let d = without(c, "**"@);
    let e = without(d, "__"@);
    let f = without(e, "*"@);
    let g = without(f, "_"@);
    without(g, "`"@)
}

/// What a text with the extension `ext`, in lower case, is as plain text.
pub open spec fn as_plain_text(content: Seq<char>, ext: Seq<char>) -> Result<
    Seq<char>,
    Seq<char>,
> {
    if is_markdown(ext) {
        Ok(markdown_stripped(content))
    } else if is_html(ext) {
        match regex_error(TAG_PATTERN@) {
            Some(m) => Err(m),
            None => Ok(regex_replaced(TAG_PATTERN@, content, false)),
        }
    } else if ext == "txt"@ {
        Ok(content)
    } else {
        Err(unsupported_input())
    }
}

/// Converts a text with the extension `input_ext`, in lower case, to plain
/// text.
pub fn convert_to_txt(content: &str, input_ext: &str) -> (r: Result<String, String>)
    ensures
        text_outcome(r) == as_plain_text(content@, input_ext@),
{
    if same_str(input_ext, "md") || same_str(input_ext, "markdown") {
        let a = remove_all(&chars_of(content), &chars_of("### "));
        let b = remove_all(&a, &chars_of("## "));
        let c = remove_all(&b, &chars_of("# "));
        let d = remove_all(&c, &chars_of("**"));
        let e = remove_all(&d, &chars_of("__"));
        let f = remove_all(&e, &chars_of("*"));
        let g = remove_all(&f, &chars_of("_"));
        let h = remove_all(&g, &chars_of("`"));
        Ok(string_of(&h))
    } else if same_str(input_ext, "html") || same_str(input_ext, "htm") {
        match regex_new(TAG_PATTERN) {
            Err(m) => Err(m),
            Ok(re) => Ok(regex_replace_all(&re, content, false)),
        }
    } else if same_str(input_ext, "txt") {
        Ok(String::from_str(content))
    } else {
        Err(String::from_str("Unsupported input format"))
    }
}

/// The address of the page that is printed for a Markdown text, or the
/// message of why the page cannot be made.
pub open spec fn page_address(markdown: Seq<char>) -> Result<Seq<char>, Seq<char>> {
    match regex_error(CHECKBOX_PATTERN@) {
        Some(m) => Err("Failed to build checkbox regex: "@ + m),
        None => Ok(
            PAGE_ADDRESS@ + percent_encoded(
                vstd::utf8::encode_utf8(
                    PAGE_HEAD@ + regex_replaced(CHECKBOX_PATTERN@, markdown_html(markdown, true), true)
                        + PAGE_TAIL@,
                ),
            ),
        ),
    }
}

/// Makes the page that a browser prints for a Markdown text: the text
/// rendered with task lists and tables, check boxes as marks, in a styled
/// page, as an address that holds the page.
pub fn convert_via_chromium(markdown: &str) -> (r: Result<String, String>)
    ensures
        text_outcome(r) == page_address(markdown@),
{
    let html = markdown_to_html(markdown, true);
    match regex_new(CHECKBOX_PATTERN) {
        Err(m) => {
            let mut out = String::from_str("Failed to build checkbox regex: ");
            out.append(m.as_str());
            Err(out)
        },
        Ok(re) => {
            let marked = regex_replace_all(&re, html.as_str(), true);
            let mut page = String::from_str(PAGE_HEAD);
            page.append(marked.as_str());
            page.append(PAGE_TAIL);
            let mut out = String::from_str(PAGE_ADDRESS);
            out.append(url_encode(page.as_str()).as_str());
            Ok(out)
        },
    }
}

/// Makes the page that is printed to turn a Markdown text into a PDF.
pub fn convert_markdown_to_pdf(markdown: &str) -> (r: Result<String, String>)
    ensures
        text_outcome(r) == page_address(markdown@),
{
    convert_via_chromium(markdown)
}

/// What a pair of extensions asks for.
#[derive(Debug, Clone, Copy, PartialEq, Eq, Structural)]
pub enum DocumentRoute {
    /// Between Markdown and an office format: a job for the document tool.
    Pandoc,
    /// From Markdown to PDF: a page for the browser to print.
    MarkdownToPdf,
    /// From PDF: not supported.
    FromPdf,
    /// From EPUB to PDF: a job for the document tool or the e-book tool.
    EpubToPdf,
    /// From EPUB to anything else: not supported.
    FromEpub,
    /// From a text to HTML.
    ToHtml,
    /// From a text to plain text.
    ToTxt,
    /// From a text to PDF: not supported.
    ToPdf,
    /// From a text to anything else: not supported.
    ToOther,
}

/// Whether `ext`, in lower case, is the extension of an office file.
pub open spec fn is_office(ext: Seq<char>) -> bool {
    ext == "docx"@ || ext == "pptx"@
}

/// What converting a document with the extension `input` to the format
/// `output` asks for, both in lower case.
pub open spec fn route_of(input: Seq<char>, output: Seq<char>) -> DocumentRoute {
    if (is_markdown(input) || is_office(input)) && (output == "md"@ || is_office(output)) && !(
    is_office(input) && is_office(output)) {
        DocumentRoute::Pandoc
    } else if is_markdown(input) && output == "pdf"@ {
        DocumentRoute::MarkdownToPdf
    } else if input == "pdf"@ {
        DocumentRoute::FromPdf
    } else if input == "epub"@ {
        if output == "pdf"@ {
            DocumentRoute::EpubToPdf
        } else {
            DocumentRoute::FromEpub
        }
    } else if output == "html"@ {
        DocumentRoute::ToHtml
    } else if output == "txt"@ {
        DocumentRoute::ToTxt
    } else if output == "pdf"@ {
        DocumentRoute::ToPdf
    } else {
        DocumentRoute::ToOther
    }
}

/// The message of a route that is not supported, for the format `output`;
/// nothing for a supported route.
pub open spec fn rejection_of(route: DocumentRoute, output: Seq<char>) -> Option<Seq<char>> {
    match route {
        DocumentRoute::FromPdf => Some("PDF input conversion is not supported."@),
        DocumentRoute::FromEpub => Some("EPUB currently only supports PDF output"@),
        DocumentRoute::ToPdf => Some(
            "PDF output is not supported for this input type (only Markdown -> PDF and EPUB -> PDF are supported)."@,
        ),
        DocumentRoute::ToOther => Some("Unsupported output format: "@ + output),
        _ => None,
    }
}

/// Decides the conversion of a document, both extensions in lower case.
pub fn document_route(input: &str, output: &str) -> (r: DocumentRoute)
    ensures
        r == route_of(input@, output@),
{
    let markdown = same_str(input, "md") || same_str(input, "markdown");
    let office_in = same_str(input, "docx") || same_str(input, "pptx");
    let office_out = same_str(output, "docx") || same_str(output, "pptx");
    if (markdown || office_in) && (same_str(output, "md") || office_out) && !(office_in
        && office_out) {
        DocumentRoute::Pandoc
    } else if markdown && same_str(output, "pdf") {
        DocumentRoute::MarkdownToPdf
    } else if same_str(input, "pdf") {
        DocumentRoute::FromPdf
    } else if same_str(input, "epub") {
        if same_str(output, "pdf") {
            DocumentRoute::EpubToPdf
        } else {
            DocumentRoute::FromEpub
        }
    } else if same_str(output, "html") {
        DocumentRoute::ToHtml
    } else if same_str(output, "txt") {
        DocumentRoute::ToTxt
    } else if same_str(output, "pdf") {
        DocumentRoute::ToPdf
    } else {
        DocumentRoute::ToOther
    }
}

/// The message of a route that is not supported, for the format `output`.
pub fn rejection(route: DocumentRoute, output: &str) -> (r: Option<String>)
    ensures
        match r {
            Some(m) => rejection_of(route, output@) == Some(m@),
            None => rejection_of(route, output@) is None,
        },
{
    match route {
        DocumentRoute::FromPdf => Some(String::from_str("PDF input conversion is not supported.")),
        DocumentRoute::FromEpub => Some(String::from_str("EPUB currently only supports PDF output")),
        DocumentRoute::ToPdf => Some(
            String::from_str(
                "PDF output is not supported for this input type (only Markdown -> PDF and EPUB -> PDF are supported).",
            ),
        ),
        DocumentRoute::ToOther => {
            let mut m = String::from_str("Unsupported output format: ");
            m.append(output);
            Some(m)
        },
        _ => None,
    }
}

/// Decides the conversion of a document with the extension `input_ext` to the
/// format `output_format`, either in any case.
pub fn convert_document(input_ext: &str, output_format: &str) -> (r: DocumentRoute)
    ensures
        r == route_of(lowercase(input_ext@), lowercase(output_format@)),
{
    let input = to_lowercase(input_ext);
    let output = to_lowercase(output_format);
    document_route(input.as_str(), output.as_str())
}

/// A step on the way from an EPUB to a PDF.
#[derive(Debug, Clone, Copy, PartialEq, Eq, Structural)]
pub enum EpubStep {
    /// The file is written.
    Done,
    /// Run the document tool.
    RunPandoc,
    /// Run the e-book tool.
    RunEbookConvert,
    /// Neither tool is there.
    NoTool,
    /// The document tool failed and the e-book tool is not there.
    PandocFailed,
}

/// The first step: the document tool where it is there, else the e-book
/// tool.
pub fn convert_epub_to_pdf(has_pandoc: bool, has_ebook_convert: bool) -> (r: EpubStep)
    ensures
        r == if has_pandoc {
            EpubStep::RunPandoc
        } else if has_ebook_convert {
            EpubStep::RunEbookConvert
        } else {
            EpubStep::NoTool
        },
{
    if has_pandoc {
        EpubStep::RunPandoc
    } else if has_ebook_convert {
        EpubStep::RunEbookConvert
    } else {
        EpubStep::NoTool
    }
}

/// The step after the document tool ran: done where it succeeded, else the
/// e-book tool where it is there.
pub fn epub_after_pandoc(succeeded: bool, has_ebook_convert: bool) -> (r: EpubStep)
    ensures
        r == if succeeded {
            EpubStep::Done
        } else if has_ebook_convert {
            EpubStep::RunEbookConvert
        } else {
            EpubStep::PandocFailed
        },
{
    if succeeded {
        EpubStep::Done
    } else if has_ebook_convert {
        EpubStep::RunEbookConvert
    } else {
        EpubStep::PandocFailed
    }
}

/// The message of a step at which the conversion of an EPUB ends without a
/// file.
pub open spec fn epub_message_of(step: EpubStep) -> Option<Seq<char>> {
    match step {
        EpubStep::NoTool => Some(
            "Neither pandoc nor calibre (ebook-convert) was detected. Please install one of them:\n\n- pandoc: https://pandoc.org/installing.html\n- calibre: Provides the ebook-convert command after installation\n\nWindows (winget):\n- winget install Pandoc\n- winget install calibre.calibre"@,
        ),
        EpubStep::PandocFailed => Some(
            "pandoc conversion failed and calibre (ebook-convert) was not detected. Please install calibre or check the pandoc output log."@,
        ),
        _ => None,
    }
}

/// The message of a step at which the conversion of an EPUB ends without a
/// file.
pub fn epub_message(step: EpubStep) -> (r: Option<&'static str>)
    ensures
        match r {
            Some(m) => epub_message_of(step) == Some(m@),
            None => epub_message_of(step) is None,
        },
{
    match step {
        EpubStep::NoTool => Some(
            "Neither pandoc nor calibre (ebook-convert) was detected. Please install one of them:\n\n- pandoc: https://pandoc.org/installing.html\n- calibre: Provides the ebook-convert command after installation\n\nWindows (winget):\n- winget install Pandoc\n- winget install calibre.calibre",
        ),
        EpubStep::PandocFailed => Some(
            "pandoc conversion failed and calibre (ebook-convert) was not detected. Please install calibre or check the pandoc output log.",
        ),
        _ => None,
    }
}

/// The file name of a converted file: the stem of the input, or `output`
/// where it has none, a dot, and the format in lower case.
pub open spec fn output_name_of(stem: Option<Seq<char>>, format: Seq<char>) -> Seq<char> {
    (match stem {
        Some(s) => s,
        None => "output"@,
    }) + "."@ + lowercase(format)
}

/// The file name of a converted file.
pub fn output_name(stem: Option<&str>, output_format: &str) -> (r: String)
    ensures
        r@ == output_name_of(
            match stem {
                Some(s) => Some(s@),
                None => None,
            },
            output_format@,
        ),
{
    let mut out = match stem {
        Some(s) => String::from_str(s),
        None => String::from_str("output"),
    };
    out.append(".");
    out.append(to_lowercase(output_format).as_str());
    out
}

/// The exit code of a tool as messages show it.
pub open spec fn exit_code_text(code: Option<i32>) -> Seq<char> {
    match code {
        Some(n) => "Some("@ + decimal_text(n as int) + ")"@,
        None => "None"@,
    }
}

/// The exit code of a tool as messages show it.
pub fn exit_code(code: Option<i32>) -> (r: String)
    ensures
        r@ == exit_code_text(code),
{
    match code {
        Some(n) => {
            let mut out = String::from_str("Some(");
            out.append(string_of(&decimal_of(n as i128)).as_str());
            out.append(")");
            out
        },
        None => String::from_str("None"),
    }
}

/// The note for a PDF that failed over a character.
pub const UNICODE_NOTE: &'static str = "\n\nUnicode/CJK character error detected:\n- ConvertX uses XeLaTeX for better Unicode support.\n- Ensure XeLaTeX is installed (usually included with MiKTeX/TeX Live).\n- For CJK text (Chinese/Japanese/Korean), install CJK fonts on your system.\n- On Windows with MiKTeX: open MiKTeX Console, run Updates, then retry.\n- If XeLaTeX is not available, install TeX Live or MiKTeX with full package support.\n";

/// The note for a PDF that failed over its engine.
pub const ENGINE_NOTE: &'static str = "\n\nPDF generation notes (Windows):\n- pandoc requires a PDF engine (e.g. MiKTeX/TeX Live with XeLaTeX).\n- If you use MiKTeX, open MiKTeX Console and run Updates, then retry.\n- Ensure XeLaTeX is installed and available in PATH.\n- For CJK support, install appropriate language packages and fonts.\n";

/// Whether what the document tool wrote, in lower case, speaks of a
/// character that the PDF engine cannot set.
pub open spec fn speaks_of_character(lower: Seq<char>) -> bool {
    has_text(lower, "unicode character"@) && has_text(lower, "not set up for use with latex"@)
}

/// Whether what the document tool wrote, in lower case, speaks of a PDF
/// engine.
pub open spec fn speaks_of_engine(lower: Seq<char>) -> bool {
    has_text(lower, "pdflatex"@) || has_text(lower, "miktex"@) || has_text(lower, "xelatex"@)
        || has_text(lower, "lualatex"@) || has_text(lower, "latex"@)
}

/// The arguments that the document tool gets besides the two files, for the
/// format `output` in lower case: the PDF engine for a PDF, none else.
pub open spec fn pandoc_arguments_of(output: Seq<char>) -> Seq<Seq<char>> {
    if output == "pdf"@ {
        seq!["--pdf-engine=xelatex"@]
    } else {
        Seq::empty()
    }
}

/// The arguments that the document tool gets besides the two files, for a
/// file to write with the extension `output_ext`, in any case.
pub fn convert_via_pandoc(output_ext: &str) -> (r: Vec<String>)
    ensures
        names_view(r@) == pandoc_arguments_of(lowercase(output_ext@)),
{
    let mut list: Vec<String> = Vec::new();
    if same_str(to_lowercase(output_ext).as_str(), "pdf") {
        list.push(String::from_str("--pdf-engine=xelatex"));
    }
    assert(names_view(list@) =~= pandoc_arguments_of(lowercase(output_ext@)));
    list
}

/// The message for a run of the document tool that failed: the exit code,
/// what the tool wrote, and for a PDF a note on what it wrote.
pub open spec fn pandoc_failure_text(code: Option<i32>, stderr: Seq<char>, output: Seq<char>) -> Seq<
    char,
> {
    let start = "Pandoc conversion failed (exit code: "@ + exit_code_text(code) + ").\n"@ + stderr;
    if output == "pdf"@ && speaks_of_character(lowercase(stderr)) {
        start + UNICODE_NOTE@
    } else if output == "pdf"@ && speaks_of_engine(lowercase(stderr)) {
        start + ENGINE_NOTE@
    } else {
        start
    }
}

/// The message for a run of the document tool that failed, for a file with
/// the extension `output_ext`, in any case.
pub fn pandoc_failure(code: Option<i32>, stderr: &str, output_ext: &str) -> (r: String)
    ensures
        r@ == pandoc_failure_text(code, stderr@, lowercase(output_ext@)),
{
    let mut out = String::from_str("Pandoc conversion failed (exit code: ");
    out.append(exit_code(code).as_str());
    out.append(").\n");
    out.append(stderr);
    if same_str(to_lowercase(output_ext).as_str(), "pdf") {
        let lower = chars_of(to_lowercase(stderr).as_str());
        if contains_text(&lower, &chars_of("unicode character")) && contains_text(
            &lower,
            &chars_of("not set up for use with latex"),
        ) {
            out.append(UNICODE_NOTE);
        } else if contains_text(&lower, &chars_of("pdflatex")) || contains_text(
            &lower,
            &chars_of("miktex"),
        ) || contains_text(&lower, &chars_of("xelatex")) || contains_text(
            &lower,
            &chars_of("lualatex"),
        ) || contains_text(&lower, &chars_of("latex")) {
            out.append(ENGINE_NOTE);
        }
    }
    out
}

/// The message for a run of the e-book tool that failed.
pub open spec fn ebook_convert_failure_text(code: Option<i32>, stderr: Seq<char>) -> Seq<char> {
    "EPUB->PDF conversion failed (ebook-convert exit code: "@ + exit_code_text(code) + ").\n"@
        + stderr
}

/// The message for a run of the e-book tool that failed.
pub fn ebook_convert_failure(code: Option<i32>, stderr: &str) -> (r: String)
    ensures
        r@ == ebook_convert_failure_text(code, stderr@),
{
    let mut out = String::from_str("EPUB->PDF conversion failed (ebook-convert exit code: ");
    out.append(exit_code(code).as_str());
    out.append(").\n");
    out.append(stderr);
    out
}

} // verus!
