//! What a person sees of a message's body.

use vstd::prelude::*;

use crate::chars::{contains, contains_text, lower_of, lowered, to_chars};
use crate::mime::{html_text, html_to_text};

verus! {

/// The text of a body, as it is shown.
#[derive(Debug, PartialEq, Eq)]
pub struct ExtractedText {
    pub text: String,
}

impl Default for ExtractedText {
    fn default() -> (r: Self)
        ensures
            r.text@ == Seq::<char>::empty(),
    {
        let r: ExtractedText = ExtractedText { text: String::new() };
        assert(r.text@ =~= Seq::<char>::empty());
        r
    }
}

impl Clone for ExtractedText {
    fn clone(&self) -> (r: Self)
        ensures
            r == *self,
    {
        ExtractedText { text: self.text.clone() }
    }
}

/// The visible text of an HTML body.
#[must_use]
pub fn extract(html: &str) -> (r: ExtractedText)
    ensures
        r.text@ == html_text(html@),
{
    ExtractedText { text: html_to_text(html) }
}

/// The text of a plain body: all of it is visible.
#[must_use]
pub fn extract_plain(plain: &str) -> (r: ExtractedText)
    ensures
        r.text@ == plain@,
{
    ExtractedText { text: plain.to_owned() }
}

/// Does an HTML body name anything that would be loaded from elsewhere?
pub open spec fn remote(html: Seq<char>) -> bool {
    let l = lowered(html);
    ||| contains(l, "src=\"http"@)
    ||| contains(l, "src='http"@)
    ||| contains(l, "src=http"@)
    ||| contains(l, "src=\"//"@)
    ||| contains(l, "src='//"@)
    ||| contains(l, "background=\"http"@)
    ||| contains(l, "background='http"@)
    ||| contains(l, "url(http"@)
    ||| contains(l, "url(\"http"@)
    ||| contains(l, "url('http"@)
}

/// Does an HTML body name anything that would be loaded from elsewhere?
#[must_use]
pub fn references_remote_content(html: &str) -> (r: bool)
    ensures
        r == remote(html@),
{
    let l: Vec<char> = lower_of(&to_chars(html));
    contains_text(&l, "src=\"http") || contains_text(&l, "src='http") || contains_text(
        &l,
        "src=http",
    ) || contains_text(&l, "src=\"//") || contains_text(&l, "src='//") || contains_text(
        &l,
        "background=\"http",
    ) || contains_text(&l, "background='http") || contains_text(&l, "url(http") || contains_text(
        &l,
        "url(\"http",
    ) || contains_text(&l, "url('http")
}

/// A body loads something from elsewhere where a source, a background or a style names an
/// address on the web, in any of the ways of quoting one.
pub proof fn when_something_is_loaded_from_elsewhere(html: Seq<char>)
    ensures
        remote(html) <==> exists|w: Seq<char>|
            (w == "src=\"http"@ || w == "src='http"@ || w == "src=http"@ || w == "src=\"//"@ || w
                == "src='//"@ || w == "background=\"http"@ || w == "background='http"@ || w
                == "url(http"@ || w == "url(\"http"@ || w == "url('http"@) && #[trigger] contains(
                lowered(html),
                w,
            ),
{
}

} // verus!
