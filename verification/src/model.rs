//! Shared domain types.

use std::path::PathBuf;
use std::sync::Arc;

use vstd::prelude::*;
use vstd::utf8::{decode_utf8, valid_utf8};

use crate::path::{components, extension_text, Part};
use crate::path::{lemma_no_dot, lemma_split, part_views, path_components, text_extension, PartView};
use crate::text::chars_of;

verus! {

/// A sheet-music source format that can be browsed.
#[derive(Clone, Copy, Debug, PartialEq, Eq, Structural)]
pub enum Format {
    LilyPond,
    Abc,
}

/// An ASCII capital letter in lower case; any other character as it is.
pub open spec fn ascii_lower(c: char) -> char {
    if 'A' <= c <= 'Z' {
        (c as u32 + 32) as char
    } else {
        c
    }
}

/// A text with its ASCII capital letters in lower case.
pub open spec fn ascii_lowercase(s: Seq<char>) -> Seq<char> {
    s.map_values(|c: char| ascii_lower(c))
}

/// The format that a file extension stands for.
pub open spec fn format_of_extension(ext: Seq<char>) -> Option<Format> {
    let e = ascii_lowercase(ext);
    if e == "ly"@ || e == "ily"@ {
        Some(Format::LilyPond)
    } else if e == "abc"@ {
        Some(Format::Abc)
    } else {
        None
    }
}

/// The format of the file that a path names.
pub open spec fn format_of(parts: Seq<PartView>) -> Option<Format> {
    match text_extension(parts) {
        Some(ext) => format_of_extension(ext),
        None => None,
    }
}

/// The case of an extension does not matter.
pub proof fn law_extension_case(ext: Seq<char>)
    ensures
        format_of_extension(ascii_lowercase(ext)) == format_of_extension(ext),
{
    assert(ascii_lowercase(ascii_lowercase(ext)) =~= ascii_lowercase(ext));
}

/// A text with its ASCII capital letters in lower case.
fn to_ascii_lowercase(text: &str) -> (lower: String)
    ensures
        lower@ == ascii_lowercase(text@),
{
    let chars = chars_of(text);
    let mut lower = String::new();
    let mut i: usize = 0;
    while i < chars.len()
        invariant
            chars@ == text@,
            i <= chars@.len(),
            lower@ == ascii_lowercase(text@.take(i as int)),
        decreases chars@.len() - i,
    {
        let c = chars[i];
        let l: char = if 'A' <= c && c <= 'Z' { (c as u8 + 32) as char } else { c };
        assert(l == ascii_lower(c));
        lower.push(l);
        assert(text@.take(i + 1) =~= text@.take(i as int).push(c));
        assert(ascii_lowercase(text@.take(i + 1)) =~= ascii_lowercase(text@.take(i as int)).push(l));
        i += 1;
    }
    assert(text@.take(i as int) =~= text@);
    lower
}

impl Format {
    /// Infer the format from a file extension (`ly`/`ily` is LilyPond, `abc` is ABC), in
    /// upper or lower case.
    pub fn from_extension(ext: &str) -> (format: Option<Format>)
        ensures
            format == format_of_extension(ext@),
    {
        let lower = to_ascii_lowercase(ext);
        if lower == String::from_str("ly") || lower == String::from_str("ily") {
            Some(Format::LilyPond)
        } else if lower == String::from_str("abc") {
            Some(Format::Abc)
        } else {
            None
        }
    }

    /// Infer the format of a file from the components of its path.
    pub fn from_parts(parts: &Vec<Part>) -> (format: Option<Format>)
        ensures
            format == format_of(part_views(parts@)),
    {
        match extension_text(parts) {
            Some(ext) => Format::from_extension(ext.as_str()),
            None => None,
        }
    }

    /// Infer the format from a file extension (`.ly`/`.ily` is LilyPond, `.abc` is ABC).
    pub fn from_path(path: &PathBuf) -> (format: Option<Format>)
        ensures
            format == format_of(path_components(*path)),
    {
        Format::from_parts(&components(path))
    }
}

/// Rasterization zoom passed to `rsvg-convert` so zoomed-in scores stay crisp. The displayed
/// scale is divided by [`Page::render_scale`] to compensate.
pub const RENDER_SCALE: u32 = 2;

/// The unit of a length in an SVG file. Pixels also stand for a missing or unknown unit.
#[derive(Clone, Copy, Debug, PartialEq, Eq, Structural)]
pub enum Unit {
    Mm,
    Cm,
    Pt,
    In,
    Px,
}

/// A length as an SVG file writes it: a numeral and a unit.
pub struct Length {
    pub number: String,
    pub unit: Unit,
}

/// What a [`Length`] holds.
pub struct LengthView {
    pub number: Seq<char>,
    pub unit: Unit,
}

impl View for Length {
    type V = LengthView;

    open spec fn view(&self) -> LengthView {
        LengthView { number: self.number@, unit: self.unit }
    }
}

/// The contents of an optional length.
pub open spec fn length_view(length: Option<Length>) -> Option<LengthView> {
    match length {
        Some(l) => Some(l@),
        None => None,
    }
}

impl Clone for Length {
    fn clone(&self) -> (copy: Length)
        ensures
            copy@ == self@,
    {
        Length { number: self.number.clone(), unit: self.unit }
    }
}

/// One rendered page (LilyPond) or tune (ABC), as image bytes ready to be shown.
pub struct Page {
    /// Content-addressed URI (`bytes://<hash>.<ext>`). The extension selects the image
    /// loader; the hash makes it a stable key for identical output.
    pub uri: String,
    pub bytes: Arc<[u8]>,
    /// Native width (from the SVG root), if the root gives one.
    pub width: Option<Length>,
    /// Image pixels per natural pixel ([`RENDER_SCALE`] for a rasterized PNG, 1 for raw SVG).
    pub render_scale: u32,
}

/// What a [`Page`] holds.
pub struct PageView {
    pub uri: Seq<char>,
    pub bytes: Seq<u8>,
    pub width: Option<LengthView>,
    pub render_scale: u32,
}

impl View for Page {
    type V = PageView;

    open spec fn view(&self) -> PageView {
        PageView {
            uri: self.uri@,
            bytes: self.bytes@,
            width: length_view(self.width),
            render_scale: self.render_scale,
        }
    }
}

impl Clone for Page {
    fn clone(&self) -> (copy: Page)
        ensures
            copy@ == self@,
    {
        Page {
            uri: self.uri.clone(),
            bytes: self.bytes.clone(),
            width: match &self.width {
                Some(l) => Some(l.clone()),
                None => None,
            },
            render_scale: self.render_scale,
        }
    }
}

/// What a list of pages holds.
pub open spec fn page_views(pages: Seq<Page>) -> Seq<PageView> {
    pages.map_values(|p: Page| p@)
}

/// The result of running an engraver.
pub struct RenderOutput {
    pub pages: Vec<Page>,
    /// Combined stdout/stderr from the engraver (warnings/errors shown in the status bar).
    pub diagnostics: String,
    /// True when the engraver produced at least one page.
    pub ok: bool,
}

/// What a [`RenderOutput`] holds.
pub struct OutputView {
    pub pages: Seq<PageView>,
    pub diagnostics: Seq<char>,
    pub ok: bool,
}

impl View for RenderOutput {
    type V = OutputView;

    open spec fn view(&self) -> OutputView {
        OutputView {
            pages: page_views(self.pages@),
            diagnostics: self.diagnostics@,
            ok: self.ok,
        }
    }
}

impl Clone for RenderOutput {
    fn clone(&self) -> (copy: RenderOutput)
        ensures
            copy@ == self@,
    {
        let pages = self.pages.clone();
        assert(page_views(pages@) =~= page_views(self.pages@));
        RenderOutput { pages, diagnostics: self.diagnostics.clone(), ok: self.ok }
    }
}

impl Default for RenderOutput {
    fn default() -> (output: RenderOutput)
        ensures
            output@ == (OutputView { pages: seq![], diagnostics: seq![], ok: false }),
    {
        let output = RenderOutput { pages: Vec::new(), diagnostics: String::new(), ok: false };
        assert(page_views(output.pages@) =~= seq![]);
        output
    }
}

/// Whether a text is another one, in small letters, up to the case of its ASCII letters.
pub open spec fn spells(text: Seq<char>, small: Seq<char>) -> bool {
    &&& text.len() == small.len()
    &&& forall|i: int|
        0 <= i < text.len() ==> #[trigger] text[i] == small[i] || ('A' <= text[i] <= 'Z' && text[i] as u32 + 32
            == small[i] as u32)
}

/// A text spells another one exactly if it is that one in lower case.
proof fn lemma_spells(text: Seq<char>, small: Seq<char>)
    requires
        forall|i: int| 0 <= i < small.len() ==> 'a' <= #[trigger] small[i] <= 'z',
    ensures
        ascii_lowercase(text) == small <==> spells(text, small),
{
    let low = ascii_lowercase(text);
    if low == small {
        assert forall|i: int| 0 <= i < text.len() implies #[trigger] text[i] == small[i] || ('A' <= text[i] <= 'Z'
            && text[i] as u32 + 32 == small[i] as u32) by {
            assert(low[i] == ascii_lower(text[i]));
        }
    }
    if spells(text, small) {
        assert forall|i: int| 0 <= i < text.len() implies low[i] == small[i] by {
            assert('a' <= small[i] <= 'z');
            assert(text[i] == small[i] || ('A' <= text[i] <= 'Z' && text[i] as u32 + 32 == small[i] as u32));
        }
        assert(low =~= small);
    }
}

/// What an extension stands for, whatever the case of its letters.
proof fn lemma_extension_format(ext: Seq<char>)
    ensures
        format_of_extension(ext) == Some(Format::LilyPond) <==> spells(ext, seq!['l', 'y']) || spells(
            ext,
            seq!['i', 'l', 'y'],
        ),
        format_of_extension(ext) == Some(Format::Abc) <==> spells(ext, seq!['a', 'b', 'c']),
{
    reveal_strlit("ly");
    reveal_strlit("ily");
    reveal_strlit("abc");
    assert("ly"@ =~= seq!['l', 'y']);
    assert("ily"@ =~= seq!['i', 'l', 'y']);
    assert("abc"@ =~= seq!['a', 'b', 'c']);
    lemma_spells(ext, seq!['l', 'y']);
    lemma_spells(ext, seq!['i', 'l', 'y']);
    lemma_spells(ext, seq!['a', 'b', 'c']);
    assert(seq!['a', 'b', 'c'][0] != seq!['i', 'l', 'y'][0]);
}

/// The format of a file is that of its extension, `ly`, `ily` or `abc` in any case, wherever the
/// file lies and however long its name is; any other extension stands for none.
pub proof fn law_format_of_file(
    path: PathBuf,
    format: Option<Format>,
    dir: Seq<PartView>,
    stem: Seq<u8>,
    ext: Seq<u8>,
)
    requires
        call_ensures(Format::from_path, (&path,), format),
        path_components(path) == dir.push(PartView::Normal(stem + seq![46u8] + ext)),
        stem.len() > 0,
        !ext.contains(46),
    ensures
        format == Some(Format::LilyPond) <==> valid_utf8(ext) && (spells(decode_utf8(ext), seq!['l', 'y']) || spells(
            decode_utf8(ext),
            seq!['i', 'l', 'y'],
        )),
        format == Some(Format::Abc) <==> valid_utf8(ext) && spells(decode_utf8(ext), seq!['a', 'b', 'c']),
{
    lemma_split(stem, ext);
    assert(path_components(path).last() == PartView::Normal(stem + seq![46u8] + ext));
    lemma_extension_format(decode_utf8(ext));
}

/// A file without an extension has no format, nor has a path that does not end with a name.
pub proof fn law_no_format(path: PathBuf, format: Option<Format>)
    requires
        call_ensures(Format::from_path, (&path,), format),
    ensures
        path_components(path).len() == 0 ==> format is None,
        path_components(path).len() > 0 && !(path_components(path).last() is Normal) ==> format is None,
        path_components(path).len() > 0 && path_components(path).last() is Normal && (forall|i: int|
            1 <= i < (path_components(path).last()->Normal_0).len() ==> #[trigger] (
            path_components(path).last()->Normal_0)[i] != 46) ==> format is None,
{
    if path_components(path).len() > 0 && path_components(path).last() is Normal {
        let name = path_components(path).last()->Normal_0;
        if forall|i: int| 1 <= i < name.len() ==> #[trigger] name[i] != 46 {
            lemma_no_dot(name);
        }
    }
}

/// The same format is found from a path, from its components and from its extension.
pub proof fn law_formats_agree(path: PathBuf, parts: &Vec<Part>, by_path: Option<Format>, by_parts: Option<Format>)
    requires
        call_ensures(components, (&path,), *parts),
        call_ensures(Format::from_path, (&path,), by_path),
        call_ensures(Format::from_parts, (parts,), by_parts),
    ensures
        by_path == by_parts,
{
}

/// Copies of rendered output are the same in every page.
pub proof fn law_copies_equal(output: RenderOutput, copy: RenderOutput)
    requires
        call_ensures(RenderOutput::clone, (&output,), copy),
    ensures
        copy.ok == output.ok,
        copy.diagnostics@ == output.diagnostics@,
        copy.pages@.len() == output.pages@.len(),
        forall|i: int|
            0 <= i < copy.pages@.len() ==> {
                &&& (#[trigger] copy.pages@[i]).uri@ == output.pages@[i].uri@
                &&& copy.pages@[i].bytes@ == output.pages@[i].bytes@
                &&& copy.pages@[i].render_scale == output.pages@[i].render_scale
                &&& length_view(copy.pages@[i].width) == length_view(output.pages@[i].width)
            },
{
    assert(page_views(copy.pages@).len() == page_views(output.pages@).len());
    assert forall|i: int| 0 <= i < copy.pages@.len() implies (#[trigger] copy.pages@[i])@ == output.pages@[i]@ by {
        assert(page_views(copy.pages@)[i] == page_views(output.pages@)[i]);
    }
}

/// An extension stands for a format in any case of its letters, and only those that are known do.
pub proof fn law_format_of_extension(ext: &str, format: Option<Format>)
    requires
        call_ensures(Format::from_extension, (ext,), format),
    ensures
        format == Some(Format::LilyPond) <==> spells(ext@, seq!['l', 'y']) || spells(ext@, seq!['i', 'l', 'y']),
        format == Some(Format::Abc) <==> spells(ext@, seq!['a', 'b', 'c']),
{
    lemma_extension_format(ext@);
}

} // verus!
