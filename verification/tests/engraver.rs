use std::path::PathBuf;

use lilyabc_browser::digest::content_hash;
use lilyabc_browser::engraver::{
    attr_px, collect_svgs, cropped_name, finish_render, rasterize_png, read_page, render, run, svg_width, write_failed, Arg,
    Outcome, RenderRequest,
};
use lilyabc_browser::model::{Format, Unit};
use lilyabc_browser::text::{chars_of, find};

fn request(format: Format, tune: Option<u32>) -> RenderRequest {
    RenderRequest {
        format,
        source: "X:1".to_string(),
        base_dir: PathBuf::from("/music/dir"),
        tune,
        force: false,
    }
}

fn shown(args: &[Arg]) -> Vec<String> {
    args.iter()
        .map(|a| match a {
            Arg::Text(s) => s.clone(),
            Arg::Work(s) => format!("<{s}>"),
        })
        .collect()
}

fn length(s: &str) -> Option<(String, Unit)> {
    attr_px(&chars_of(s), "width").map(|l| (l.number, l.unit))
}

#[test]
fn lilypond_command_line() {
    let c = render(&request(Format::LilyPond, Some(3)));
    assert_eq!(c.program, "lilypond");
    assert_eq!(c.source, "X:1");
    assert_eq!(c.dir, PathBuf::from("/music/dir"));
    assert_eq!(c.input, "sheet.ly");
    assert_eq!(
        shown(&c.args),
        vec!["-dbackend=svg", "-dcrop", "-dno-point-and-click", "-I/music/dir", "-o", "<out>", "<sheet.ly>"]
    );
}

#[test]
fn abc_command_line() {
    let c = render(&request(Format::Abc, None));
    assert_eq!(c.program, "abcm2ps");
    assert_eq!(c.input, "sheet.abc");
    assert_eq!(shown(&c.args), vec!["-g", "-O", "<out>", "<sheet.abc>"]);
    let c = render(&request(Format::Abc, Some(12)));
    assert_eq!(shown(&c.args), vec!["-g", "-O", "<out>", "-e12", "<sheet.abc>"]);
}

#[test]
fn raster_options() {
    assert_eq!(rasterize_png(), vec!["-z", "2", "-b", "white", "-o"]);
}

#[test]
fn logs_are_merged() {
    let (ok, log) = run(Outcome::Finished {
        success: true,
        stdout: b"out\xff".to_vec(),
        stderr: b"err".to_vec(),
    });
    assert!(ok);
    assert_eq!(log, "out\u{fffd}err");
    let (ok, log) = run(Outcome::NotStarted { error: "no such file".to_string() });
    assert!(!ok);
    assert_eq!(log, "failed to run engraver: no such file");
}

#[test]
fn a_render_is_good_if_there_is_a_page() {
    let done = |success: bool| Outcome::Finished { success, stdout: b"log".to_vec(), stderr: Vec::new() };
    let page = || vec![read_page(b"<svg/>".to_vec(), None)];
    assert!(finish_render(done(true), page()).ok);
    let partial = finish_render(done(false), page());
    assert!(partial.ok);
    assert_eq!(partial.pages.len(), 1);
    assert_eq!(partial.diagnostics, "log");
    assert!(!finish_render(done(true), Vec::new()).ok);
    assert!(!finish_render(done(false), Vec::new()).ok);
    let failed = finish_render(Outcome::NotStarted { error: "x".to_string() }, Vec::new());
    assert!(!failed.ok);
    assert_eq!(failed.diagnostics, "failed to run engraver: x");
    let unwritten = write_failed("disk full");
    assert!(!unwritten.ok && unwritten.pages.is_empty());
    assert_eq!(unwritten.diagnostics, "cannot write temp source: disk full");
}

#[test]
fn cropped_image_is_preferred() {
    let cropped = PathBuf::from("w/out.cropped.svg");
    let listing = vec![PathBuf::from("w/out.svg"), cropped.clone()];
    assert_eq!(collect_svgs(Some(cropped.clone()), listing), vec![cropped]);
}

#[test]
fn products_are_collected_in_order() {
    let listing: Vec<PathBuf> = [
        "w/out010.svg", "w/out002.svg", "w/sheet.abc", "w/out001.svg", "w/out001.png", "w/xout.svg", "w/out.SVG",
        "w/ou.svg", "w/out.svg",
    ]
    .iter()
    .map(PathBuf::from)
    .collect();
    let svgs: Vec<String> = collect_svgs(None, listing).iter().map(|p| p.display().to_string()).collect();
    assert_eq!(svgs, vec!["w/out.svg", "w/out001.svg", "w/out002.svg", "w/out010.svg"]);
}

#[test]
fn pages_are_shown_by_number() {
    let listing: Vec<PathBuf> = [
        "w/out-10.svg", "w/out-2.svg", "w/out-1.svg", "w/out-1.png", "w/other.svg", "w/out-1-10.svg", "w/out-1-9.svg",
        "w/out-02.svg", "w/out-18446744073709551617.svg", "w/out-18446744073709551616.svg",
    ]
    .iter()
    .map(PathBuf::from)
    .collect();
    let svgs: Vec<String> = collect_svgs(None, listing).iter().map(|p| p.display().to_string()).collect();
    assert_eq!(
        svgs,
        vec![
            "w/out-1.svg",
            "w/out-1-9.svg",
            "w/out-1-10.svg",
            "w/out-02.svg",
            "w/out-2.svg",
            "w/out-10.svg",
            "w/out-18446744073709551616.svg",
            "w/out-18446744073709551617.svg",
        ]
    );
}

#[test]
fn hashes_are_those_of_blake3() {
    assert_eq!(content_hash(b""), "af1349b9f5f9a1a6a0404dea36dcc9499bcb25c9adc112b7cc9a93cae41f3262");
    assert_eq!(content_hash(b"abc"), "6437b3ac38465133ffb63b75273a8db548c558465d79db03fd359c6cd5bd9d85");
}

#[test]
fn pages_are_addressed_by_content() {
    let svg = b"<svg width=\"210mm\"/>".to_vec();
    let page = read_page(svg.clone(), None);
    assert_eq!(page.uri, format!("bytes://{}.svg", content_hash(&svg)));
    assert_eq!(&page.bytes[..], &svg[..]);
    assert_eq!(page.render_scale, 1);
    let width = page.width.unwrap();
    assert_eq!((width.number.as_str(), width.unit), ("210", Unit::Mm));
    let page = read_page(svg, Some(b"png".to_vec()));
    assert_eq!(page.uri, format!("bytes://{}.png", content_hash(b"png")));
    assert_eq!(&page.bytes[..], b"png");
    assert_eq!(page.render_scale, 2);
    assert_eq!(page.width.unwrap().unit, Unit::Mm);
}

#[test]
fn widths_are_read_with_their_units() {
    assert_eq!(length("<svg width=\"12.5cm\" height=\"1\">"), Some(("12.5".to_string(), Unit::Cm)));
    assert_eq!(length("<svg width=\" 7 pt \">"), Some(("7".to_string(), Unit::Pt)));
    assert_eq!(length("<svg width=\"-1in\">"), Some(("-1".to_string(), Unit::In)));
    assert_eq!(length("<svg width=\"100%\">"), Some(("100".to_string(), Unit::Px)));
    assert_eq!(length("<svg width=\"3\">"), Some(("3".to_string(), Unit::Px)));
    assert_eq!(length("<svg width=\"auto\">"), Some((String::new(), Unit::Px)));
    assert_eq!(length("<svg stroke-width=\"2mm\" width=\"9\">"), Some(("9".to_string(), Unit::Px)));
    assert_eq!(length("<svg width = '3'>"), Some(("3".to_string(), Unit::Px)));
    assert_eq!(length("<svg width=\"3"), None);
    assert_eq!(length("<svg widths=\"3\">"), None);
    assert_eq!(length("<svg><rect width=\"3\"/>"), None);
    assert_eq!(length("<svg a=' width=\"3\"' b=\">\" width=\"4\">"), Some(("4".to_string(), Unit::Px)));
    assert_eq!(length("width=\"3\""), Some(("3".to_string(), Unit::Px)));
    assert_eq!(length(""), None);
}

#[test]
fn the_width_is_that_of_the_root_element() {
    let width = |s: &str| svg_width(s.as_bytes()).map(|l| l.number);
    assert_eq!(width("<svg stroke-width=\"3\" width=\"100\">"), Some("100".to_string()));
    assert_eq!(width("<?xml version=\"1.0\"?>\n<!DOCTYPE svg>\n<svg\n width=\"5\"/>"), Some("5".to_string()));
    assert_eq!(width("<!-- <svg width=\"1\"> --><svg width=\"2\">"), Some("2".to_string()));
    assert_eq!(width("<x width=\"1\"/><svgs width=\"2\"/><svg height=\"7\"><g width=\"3\"/></svg>"), None);
    assert_eq!(width("<!-- <svg width=\"1\">"), None);
    assert_eq!(width("width=\"1\""), None);
    assert_eq!(width("<svg"), None);
    assert_eq!(width("<svg:svg xmlns:svg=\"u\" width=\"100\">"), Some("100".to_string()));
    assert_eq!(width("<:svg width=\"1\"><xsvg width=\"2\">"), None);
    assert_eq!(width("<svg a=\"1\"width=\"3\">"), Some("3".to_string()));
    assert_eq!(width("<svg a='1'width='3'>"), Some("3".to_string()));
}

#[test]
fn only_the_head_of_an_svg_is_looked_at() {
    let mut svg = vec![b' '; 2034];
    svg.extend_from_slice(b"<svg width=\"8\"");
    assert_eq!(svg.len(), 2048);
    assert_eq!(svg_width(&svg).unwrap().number, "8");
    svg.insert(0, b' ');
    assert!(svg_width(&svg).is_none());
}

#[test]
fn texts_are_found() {
    let s = chars_of("abcabd");
    assert_eq!(find(&s, &chars_of("abd")), Some(3));
    assert_eq!(find(&s, &chars_of("ab")), Some(0));
    assert_eq!(find(&s, &chars_of("x")), None);
    assert_eq!(find(&s, &chars_of("abcabde")), None);
    assert_eq!(find(&s, &[]), Some(0));
}

#[test]
fn identical_images_share_a_uri() {
    let a = read_page(b"<svg width=\"1mm\">".to_vec(), Some(vec![1, 2]));
    let b = read_page(b"<svg>".to_vec(), Some(vec![1, 2]));
    let c = read_page(b"<svg>".to_vec(), Some(vec![1, 3]));
    assert_eq!(a.uri, b.uri);
    assert_ne!(a.uri, c.uri);
}

#[test]
fn the_cropped_image_has_a_fixed_name() {
    assert_eq!(cropped_name(), "out.cropped.svg");
}
