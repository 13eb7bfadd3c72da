//! The screenplay converter: parses Fountain source and renders it as
//! stylized HTML or PDF.

use vstd::prelude::*;

use rustwell::Exporter;
use vstd::utf8::{encode_utf8, valid_utf8};

verus! {

/// The HTML rendering of the screenplay parsed from `fountain`, under the
/// given exporter flags.  Parsing and HTML rendering are pure string
/// processing: the output depends on the source and the flags alone.
pub uninterp spec fn html_of(fountain: Seq<char>, standalone: bool, synopses: bool) -> Seq<u8>;

/// Relies on `rustwell::parse` and `rustwell::HtmlExporter`'s
/// `Exporter::export`, rendering into an in-memory buffer; writes to a
/// `Vec<u8>` cannot fail.
#[verifier::external_body]
fn render_html(fountain: &str, standalone: bool, synopses: bool) -> (r: Vec<u8>)
    ensures
        r@ == html_of(fountain@, standalone, synopses),
{
    let parsed = rustwell::parse(fountain);
    let exporter = rustwell::HtmlExporter { standalone, synopses, include_source_positions: false };
    let mut buffer: Vec<u8> = Vec::new();
    let _ = exporter.export(&parsed, &mut buffer);
    buffer
}

/// Relies on `String::from_utf8`: succeeds exactly on valid UTF-8, handing
/// back the string whose encoding is the input bytes.
#[verifier::external_body]
fn utf8_string(bytes: Vec<u8>) -> (r: Result<String, ()>)
    ensures
        r is Ok <==> valid_utf8(bytes@),
        r matches Ok(s) ==> encode_utf8(s@) == bytes@,
{
    match String::from_utf8(bytes) {
        Ok(s) => Ok(s),
        Err(_) => Err(()),
    }
}

pub fn add(left: usize, right: usize) -> (r: usize)
    requires
        left + right <= usize::MAX,
    ensures
        r == left + right,
{
    left + right
}

/// Runs the Fountain parser and compiles the script into stylized,
/// standalone HTML.
pub fn generate_html(fountain: String) -> (r: Result<String, String>)
    ensures
        match r {
            Ok(html) => valid_utf8(html_of(fountain@, true, false)) && encode_utf8(html@)
                == html_of(fountain@, true, false),
            Err(m) => !valid_utf8(html_of(fountain@, true, false)) && m@
                == "Invalid UTF-8 sequence"@,
        },
{
    let buffer = render_html(fountain.as_str(), true, false);
    match utf8_string(buffer) {
        Ok(s) => Ok(s),
        Err(()) => Err("Invalid UTF-8 sequence".to_owned()),
    }
}

/// Renders a preview of the play: the same standalone HTML rendering as
/// [`generate_html`].
pub fn preview_play(fountain: String) -> (r: Result<String, String>)
    ensures
        match r {
            Ok(html) => valid_utf8(html_of(fountain@, true, false)) && encode_utf8(html@)
                == html_of(fountain@, true, false),
            Err(m) => !valid_utf8(html_of(fountain@, true, false)) && m@
                == "Invalid UTF-8 sequence"@,
        },
{
    let buffer = render_html(fountain.as_str(), true, false);
    match utf8_string(buffer) {
        Ok(s) => Ok(s),
        Err(()) => Err("Invalid UTF-8 sequence".to_owned()),
    }
}

/// Runs the Fountain parser and compiles the script into a stylized PDF.
/// Relies on `rustwell::PdfExporter`: the emitted bytes may carry
/// library-chosen metadata, so nothing is stated of them; the reliance
/// includes the exporter's layout arithmetic returning, rather than
/// panicking, on the given script.
#[verifier::external_body]
pub fn generate_pdf(fountain: String) -> Vec<u8> {
    let parsed = rustwell::parse(fountain.as_str());
    let exporter = rustwell::PdfExporter { synopses: false, paper_size: Default::default() };
    let mut buffer: Vec<u8> = Vec::new();
    let _ = exporter.export(&parsed, &mut buffer);
    buffer
}

} // verus!
