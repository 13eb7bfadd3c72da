//! The Fountain converter.

use dionysus::converter::{add, generate_html, generate_pdf, preview_play};

const SCRIPT: &str = "Title: Example\n\nINT. ROOM - DAY\n\nA man stands alone.\n\nMAN\nHello there.\n";

#[test]
fn add_sums() {
    assert_eq!(add(2, 3), 5);
    assert_eq!(add(0, 0), 0);
}

#[test]
fn generate_html_renders_screenplay() {
    let html = generate_html(SCRIPT.to_string()).unwrap();
    assert!(html.contains("<!DOCTYPE html>"));
    assert!(html.contains("screenplay"));
    assert!(html.contains("Hello there."));
}

#[test]
fn preview_play_matches_generate_html() {
    let a = preview_play(SCRIPT.to_string()).unwrap();
    let b = generate_html(SCRIPT.to_string()).unwrap();
    assert_eq!(a, b);
}

#[test]
fn generate_pdf_emits_pdf_bytes() {
    let pdf = generate_pdf(SCRIPT.to_string());
    assert!(pdf.len() > 4);
    assert_eq!(&pdf[0..5], b"%PDF-");
}
