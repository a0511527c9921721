use vstd::prelude::*;

verus! {

#[verifier::external_type_specification]
#[verifier::external_body]
pub struct ExMessage(markdown::message::Message);

/// What markdown makes of a text, as HTML, under its GitHub-flavoured options.
pub uninterp spec fn gfm_html_of(s: Seq<char>) -> Seq<char>;

/// Relies on markdown's `to_html_with_options` with `Options::gfm()`: it fails only on
/// MDX syntax, which these options leave off, so it returns the HTML for the text, which
/// depends on the text alone.
#[verifier::external_body]
fn gfm_to_html(s: &str) -> (r: Result<String, markdown::message::Message>)
    ensures
        r is Ok,
        r matches Ok(h) ==> h@ == gfm_html_of(s@),
{
    markdown::to_html_with_options(s, &markdown::Options::gfm())
}

/// Relies on `Display` for markdown's `Message`: the text of the message.
#[verifier::external_body]
fn message_text(m: &markdown::message::Message) -> String {
    m.to_string()
}

/// Why Markdown could not be turned into HTML.
pub enum RenderError {
    /// The Markdown parser refused the text; the message says why.
    Markdown(String),
}

/// The HTML body for a Markdown text (GitHub-flavoured); the conversion always succeeds.
pub fn html_body(markdown_text: &str) -> (r: Result<String, RenderError>)
    ensures
        r is Ok,
        r matches Ok(h) ==> h@ == gfm_html_of(markdown_text@),
{
    match gfm_to_html(markdown_text) {
        Ok(h) => Ok(h),
        Err(m) => Err(RenderError::Markdown(message_text(&m))),
    }
}

} // verus!
