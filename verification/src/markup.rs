//! What documents are rendered with: Markdown by `comrak`, patterns by
//! `regex`, percent-encoding by `urlencoding`.
//!
//! What is stated here of the three crates is taken on trust.

use crate::text::{chars_of, contains_text, has_text, ascii_lowered, to_ascii_lower};
use vstd::prelude::*;

verus! {

/// The HTML that `comrak::markdown_to_html` renders a Markdown text to, with
/// the default options; with `lists_and_tables`, with the extensions for task
/// lists and tables switched on.
pub uninterp spec fn markdown_html(markdown: Seq<char>, lists_and_tables: bool) -> Seq<char>;

/// `comrak::markdown_to_html` with the default options, and with the
/// extensions `tasklist` and `table` as `lists_and_tables` says. The result
/// is taken to depend on the text and the two switches alone. That the call
/// returns for every text is taken on trust too: the panics of the renderer
/// guard the shape of the tree that the parser built in the same call (a
/// table cell in a row, a row in a table), and no text is known to reach them.
#[verifier::external_body]
pub(crate) fn markdown_to_html(markdown: &str, lists_and_tables: bool) -> (r: String)
    ensures
        r@ == markdown_html(markdown@, lists_and_tables),
{
    let mut options = comrak::Options::default();
    options.extension.tasklist = lists_and_tables;
    options.extension.table = lists_and_tables;
    comrak::markdown_to_html(markdown, &options)
}

#[verifier::external_type_specification]
#[verifier::external_body]
pub struct ExRegex(regex::Regex);

/// What a `regex::Regex` was built from: its pattern, for one that
/// `Regex::new` built.
pub uninterp spec fn regex_pattern(re: regex::Regex) -> Seq<char>;

/// What `regex::Regex::new` objects to in a pattern: the message of its
/// error, or nothing where the pattern can be built.
pub uninterp spec fn regex_error(pattern: Seq<char>) -> Option<Seq<char>>;

/// What `regex::Regex::replace_all` makes of a text when every match of the
/// pattern is replaced by what `replacement` gives for it.
pub uninterp spec fn regex_replaced(pattern: Seq<char>, text: Seq<char>, marks: bool) -> Seq<char>;

/// `regex::Regex::new`: the pattern, built, or the message of the error.
#[verifier::external_body]
pub(crate) fn regex_new(pattern: &str) -> (r: Result<regex::Regex, String>)
    ensures
        match r {
            Ok(re) => regex_error(pattern@) is None && regex_pattern(re) == pattern@,
            Err(m) => regex_error(pattern@) == Some(m@),
        },
{
    regex::Regex::new(pattern).map_err(|e| e.to_string())
}

/// The mark that stands for a check box in a page to print: one for a box
/// whose tag says `checked`, in any mix of ASCII case, another for the rest.
pub open spec fn mark_of(tag: Seq<char>) -> Seq<char> {
    if has_text(ascii_lowered(tag), "checked"@) {
        "<span class=\"task-check task-check-done\">✓</span>"@
    } else {
        "<span class=\"task-check task-check-todo\">✗</span>"@
    }
}

/// The mark that stands for the check box with the tag `tag`.
pub fn checkbox_mark(tag: &str) -> (r: &'static str)
    ensures
        r@ == mark_of(tag@),
{
    let v = chars_of(tag);
    let mut lower: Vec<char> = Vec::new();
    let mut i: usize = 0;
    while i < v.len()
        invariant
            i <= v.len(),
            lower@ == ascii_lowered(v@).take(i as int),
        decreases v.len() - i,
    {
        lower.push(to_ascii_lower(v[i]));
        assert(lower@ =~= ascii_lowered(v@).take(i + 1));
        i += 1;
    }
    assert(lower@ =~= ascii_lowered(v@));
    if contains_text(&lower, &chars_of("checked")) {
        "<span class=\"task-check task-check-done\">✓</span>"
    } else {
        "<span class=\"task-check task-check-todo\">✗</span>"
    }
}

/// What a match is replaced by: its mark where check boxes are marked,
/// nothing where matches are taken away.
pub open spec fn replacement_of(found: Seq<char>, marks: bool) -> Seq<char> {
    if marks {
        mark_of(found)
    } else {
        Seq::empty()
    }
}

/// What the match `found` is replaced by.
pub fn replacement(found: &str, marks: bool) -> (r: &'static str)
    ensures
        r@ == replacement_of(found@, marks),
{
    if marks {
        checkbox_mark(found)
    } else {
        proof {
            reveal_strlit("");
            assert(""@ =~= Seq::<char>::empty());
        }
        ""
    }
}

/// `regex::Regex::replace_all` with `replacement` of each match as what
/// replaces it.
#[verifier::external_body]
pub(crate) fn regex_replace_all(re: &regex::Regex, text: &str, marks: bool) -> (r: String)
    ensures
        r@ == regex_replaced(regex_pattern(*re), text@, marks),
{
    re.replace_all(text, |found: &regex::Captures| replacement(&found[0], marks)).to_string()
}

/// Whether `urlencoding` writes the byte `b` as it is: an ASCII letter or
/// digit, `-`, `.`, `_` or `~`.
pub open spec fn is_unreserved(b: u8) -> bool {
    ||| 0x30 <= b <= 0x39
    ||| 0x41 <= b <= 0x5A
    ||| 0x61 <= b <= 0x7A
    ||| b == 0x2D
    ||| b == 0x2E
    ||| b == 0x5F
    ||| b == 0x7E
}

/// The hexadecimal digit, in upper case, for a number below sixteen.
pub open spec fn hex_digit(d: u8) -> char {
    if d < 10 {
        (0x30 + d) as char
    } else {
        (0x41 + d - 10) as char
    }
}

/// How one byte is written: as it is, or as `%` and its two hexadecimal
/// digits.
pub open spec fn percent_unit(b: u8) -> Seq<char> {
    if is_unreserved(b) {
        seq![b as char]
    } else {
        seq!['%', hex_digit(b / 16), hex_digit(b % 16)]
    }
}

/// The bytes `bytes`, each written as `percent_unit` writes it.
pub open spec fn percent_encoded(bytes: Seq<u8>) -> Seq<char>
    decreases bytes.len(),
{
    if bytes.len() == 0 {
        Seq::empty()
    } else {
        percent_encoded(bytes.drop_last()) + percent_unit(bytes.last())
    }
}

/// `urlencoding::encode`: every byte of the text in UTF-8 but ASCII letters,
/// digits, `-`, `.`, `_` and `~` written as `%` and two hexadecimal digits.
#[verifier::external_body]
pub(crate) fn url_encode(text: &str) -> (r: String)
    ensures
        r@ == percent_encoded(vstd::utf8::encode_utf8(text@)),
{
    urlencoding::encode(text).into_owned()
}

} // verus!
