//! What is asked of the external engravers (`lilypond`, `abcm2ps`) and what is made of their
//! SVG output.
//!
//! This module does not engrave music itself: it says how the canonical tools are invoked
//! and what becomes of the files they produce:
//!   * `lilypond -dbackend=svg -dcrop -dno-point-and-click -o BASE IN.ly` → `BASE.cropped.svg`
//!   * `abcm2ps -g -O BASE IN.abc` → `BASE001.svg`, `BASE002.svg`, … (one per tune)

use std::path::PathBuf;
use std::sync::Arc;

use vstd::prelude::*;
use vstd::slice::slice_subrange;
use vstd::utf8::{
    decode_utf8, decode_utf8_encode_utf8, encode_utf8, encode_utf8_decode_utf8, encode_utf8_valid_utf8,
    is_ascii_chars, is_ascii_chars_encode_utf8, valid_utf8,
};

use crate::digest::content_hash;
use crate::digest::{blake3_digest, lower_hex};
use crate::model::{Format, Length, Page, RenderOutput, Unit, RENDER_SCALE};
use crate::model::{length_view, page_views, LengthView, OutputView, PageView};
use crate::order::{digits_key, sort_by_keys};
use crate::order::{key_before, key_view, key_views, number_key, sorted_by};
use crate::order::{law_number_key, law_sorted, law_stable_order_unique};
use crate::path::{components, display, extension_text, sort_key, stem_text, Part};
use crate::path::{
    extension_of, lemma_rejoined, lemma_split, part_views, path_components, path_key, path_shown, stem_of,
    text_extension, text_stem, PartView,
};
use crate::text::{chars_of, find, from_utf8_lossy, push_decimal, string_of, trim, trim_start};
use crate::text::{
    bare, decimal, digits_value, find_text, has_prefix, is_digit, lemma_decimal, lemma_place_value, lemma_trimmed,
    lossy_utf8, place_value, trimmed, trimmed_start, white_space,
};

verus! {

/// A single render request. The source text is rendered (rather than the file on disk) so
/// the same path serves both the file viewer and the live-edit buffer.
pub struct RenderRequest {
    pub format: Format,
    pub source: String,
    /// Working directory for the engraver, so LilyPond `\include` and relative paths resolve
    /// against the original file's directory.
    pub base_dir: PathBuf,
    /// For multi-tune ABC files, render only this 1-based tune; `None` renders all tunes.
    pub tune: Option<u32>,
    /// Bypass the render cache (used by Reload to pick up external edits).
    pub force: bool,
}

/// An argument of a command: a text, or a file of the given name in the scratch directory.
pub enum Arg {
    Text(String),
    Work(String),
}

/// What an [`Arg`] holds.
pub enum ArgView {
    Text(Seq<char>),
    Work(Seq<char>),
}

impl View for Arg {
    type V = ArgView;

    open spec fn view(&self) -> ArgView {
        match self {
            Arg::Text(s) => ArgView::Text(s@),
            Arg::Work(s) => ArgView::Work(s@),
        }
    }
}

/// What a list of arguments holds.
pub open spec fn arg_views(args: Seq<Arg>) -> Seq<ArgView> {
    args.map_values(|a: Arg| a@)
}

/// An engraver run: the source is written to the input file in the scratch directory, and the
/// program is started with the arguments in the working directory.
pub struct EngraverCommand {
    pub input: String,
    pub source: String,
    pub program: String,
    pub args: Vec<Arg>,
    pub dir: PathBuf,
}

/// What an [`EngraverCommand`] holds.
pub struct CommandView {
    pub input: Seq<char>,
    pub source: Seq<char>,
    pub program: Seq<char>,
    pub args: Seq<ArgView>,
    pub dir: PathBuf,
}

impl View for EngraverCommand {
    type V = CommandView;

    open spec fn view(&self) -> CommandView {
        CommandView {
            input: self.input@,
            source: self.source@,
            program: self.program@,
            args: arg_views(self.args@),
            dir: self.dir,
        }
    }
}

/// The run that renders LilyPond source to one cropped SVG image.
pub open spec fn lilypond_command(source: Seq<char>, base_dir: PathBuf) -> CommandView {
    CommandView {
        input: "sheet.ly"@,
        source,
        program: "lilypond"@,
        args: seq![
            ArgView::Text("-dbackend=svg"@),
            ArgView::Text("-dcrop"@),
            ArgView::Text("-dno-point-and-click"@),
            ArgView::Text("-I"@ + path_shown(base_dir)),
            ArgView::Text("-o"@),
            ArgView::Work("out"@),
            ArgView::Work("sheet.ly"@),
        ],
        dir: base_dir,
    }
}

/// The argument that selects a single tune, if one is asked for.
pub open spec fn tune_args(tune: Option<u32>) -> Seq<ArgView> {
    match tune {
        Some(n) => seq![ArgView::Text("-e"@ + decimal(n as nat))],
        None => seq![],
    }
}

/// The run that renders ABC source to SVG, one tune per file.
pub open spec fn abc_command(source: Seq<char>, base_dir: PathBuf, tune: Option<u32>) -> CommandView {
    CommandView {
        input: "sheet.abc"@,
        source,
        program: "abcm2ps"@,
        args: seq![ArgView::Text("-g"@), ArgView::Text("-O"@), ArgView::Work("out"@)] + tune_args(tune)
            + seq![ArgView::Work("sheet.abc"@)],
        dir: base_dir,
    }
}

/// The run that renders a request.
pub open spec fn command_for(req: RenderRequest) -> CommandView {
    match req.format {
        Format::LilyPond => lilypond_command(req.source@, req.base_dir),
        Format::Abc => abc_command(req.source@, req.base_dir, req.tune),
    }
}

/// A text argument.
fn text_arg(s: &str) -> (arg: Arg)
    ensures
        arg@ == ArgView::Text(s@),
{
    Arg::Text(String::from_str(s))
}

/// A file of the scratch directory as an argument.
fn work_arg(s: &str) -> (arg: Arg)
    ensures
        arg@ == ArgView::Work(s@),
{
    Arg::Work(String::from_str(s))
}

/// How a request is rendered.
pub fn render(req: &RenderRequest) -> (command: EngraverCommand)
    ensures
        command@ == command_for(*req),
{
    match req.format {
        Format::LilyPond => render_lilypond(req),
        Format::Abc => render_abc(req),
    }
}

/// How LilyPond source is rendered.
pub fn render_lilypond(req: &RenderRequest) -> (command: EngraverCommand)
    ensures
        command@ == lilypond_command(req.source@, req.base_dir),
{
    let mut include_dir = String::from_str("-I");
    include_dir.append(display(&req.base_dir).as_str());
    let mut args: Vec<Arg> = Vec::new();
    args.push(text_arg("-dbackend=svg"));
    args.push(text_arg("-dcrop"));
    args.push(text_arg("-dno-point-and-click"));
    args.push(Arg::Text(include_dir));
    args.push(text_arg("-o"));
    args.push(work_arg("out"));
    args.push(work_arg("sheet.ly"));
    assert(arg_views(args@) =~= lilypond_command(req.source@, req.base_dir).args);
    EngraverCommand {
        input: String::from_str("sheet.ly"),
        source: req.source.clone(),
        program: String::from_str("lilypond"),
        args,
        dir: req.base_dir.clone(),
    }
}

/// How ABC source is rendered.
pub fn render_abc(req: &RenderRequest) -> (command: EngraverCommand)
    ensures
        command@ == abc_command(req.source@, req.base_dir, req.tune),
{
    let mut args: Vec<Arg> = Vec::new();
    args.push(text_arg("-g"));  // SVG, one tune per file
    args.push(text_arg("-O"));
    args.push(work_arg("out"));
    if let Some(n) = req.tune {
        let mut select = String::from_str("-e");
        push_decimal(&mut select, n as u64);
        args.push(Arg::Text(select));  // select a single tune
    }
    args.push(work_arg("sheet.abc"));
    assert(arg_views(args@) =~= abc_command(req.source@, req.base_dir, req.tune).args);
    EngraverCommand {
        input: String::from_str("sheet.abc"),
        source: req.source.clone(),
        program: String::from_str("abcm2ps"),
        args,
        dir: req.base_dir.clone(),
    }
}

/// What became of an attempt to run a program.
pub enum Outcome {
    /// The program ran to its end.
    Finished { success: bool, stdout: Vec<u8>, stderr: Vec<u8> },
    /// The program could not be started, for the given reason.
    NotStarted { error: String },
}

/// Whether a run succeeded, and its log.
pub open spec fn run_log(outcome: Outcome) -> (bool, Seq<char>) {
    match outcome {
        Outcome::Finished { success, stdout, stderr } => (
            success,
            lossy_utf8(stdout@) + lossy_utf8(stderr@),
        ),
        Outcome::NotStarted { error } => (false, "failed to run engraver: "@ + error@),
    }
}

/// Merges stdout and stderr of a run into its log, and tells whether it exited successfully.
pub fn run(outcome: Outcome) -> (r: (bool, String))
    ensures
        (r.0, r.1@) == run_log(outcome),
{
    match outcome {
        Outcome::Finished { success, stdout, stderr } => {
            let mut log = from_utf8_lossy(stdout.as_slice());
            log.append(from_utf8_lossy(stderr.as_slice()).as_str());
            (success, log)
        },
        Outcome::NotStarted { error } => {
            let mut log = String::from_str("failed to run engraver: ");
            log.append(error.as_str());
            (false, log)
        },
    }
}

/// The result of a render whose source could not be written, for the given reason.
pub fn write_failed(error: &str) -> (output: RenderOutput)
    ensures
        output@ == (OutputView {
            pages: seq![],
            diagnostics: "cannot write temp source: "@ + error@,
            ok: false,
        }),
{
    let mut diagnostics = String::from_str("cannot write temp source: ");
    diagnostics.append(error);
    let pages: Vec<Page> = Vec::new();
    assert(page_views(pages@) =~= seq![]);
    RenderOutput { pages, diagnostics, ok: false }
}

/// The result of a render from the engraver's run and the pages read back: it is good if there
/// is at least one page.
pub fn finish_render(outcome: Outcome, pages: Vec<Page>) -> (output: RenderOutput)
    ensures
        output@ == (OutputView {
            pages: page_views(pages@),
            diagnostics: run_log(outcome).1,
            ok: pages@.len() > 0,
        }),
{
    let (_, diagnostics) = run(outcome);
    let ok: bool = !pages.is_empty();
    RenderOutput { pages, diagnostics, ok }
}

/// The name of LilyPond's cropped image in the scratch directory.
pub fn cropped_name() -> (name: String)
    ensures
        name@ == "out.cropped.svg"@,
{
    String::from_str("out.cropped.svg")
}

/// Whether a file is an SVG product of an engraver: `out*.svg`.
pub open spec fn is_product(parts: Seq<PartView>) -> bool {
    &&& text_extension(parts) == Some("svg"@)
    &&& text_stem(parts) is Some
    &&& has_prefix(text_stem(parts)->0, "out"@)
}

/// The products among a list of files.
pub open spec fn products(listing: Seq<PathBuf>) -> Seq<PathBuf>
    decreases listing.len(),
{
    if listing.len() == 0 {
        seq![]
    } else if is_product(path_components(listing.last())) {
        products(listing.drop_last()).push(listing.last())
    } else {
        products(listing.drop_last())
    }
}

/// The numbers in a text, one for each row of digits.
pub open spec fn numbers_in(s: Seq<char>) -> Seq<nat>
    decreases s.len(),
{
    if s.len() == 0 {
        seq![]
    } else {
        let before = numbers_in(s.drop_last());
        let digit = (s.last() as u32 - '0' as u32) as nat;
        if !is_digit(s.last()) {
            before
        } else if s.len() > 1 && is_digit(s[s.len() - 2]) {
            before.drop_last().push(before.last() * 10 + digit)
        } else {
            before.push(digit)
        }
    }
}

/// The page and tune numbers of a product: those in the stem of its name.
pub open spec fn page_numbers(parts: Seq<PartView>) -> Seq<nat> {
    match text_stem(parts) {
        Some(stem) => numbers_in(stem),
        None => seq![],
    }
}

/// Whether a row of numbers comes before another: at the first difference its number is the
/// smaller one, or it ends there.
pub open spec fn numbers_before(a: Seq<nat>, b: Seq<nat>) -> bool
    decreases a.len(),
{
    if b.len() == 0 {
        false
    } else if a.len() == 0 {
        true
    } else if a[0] != b[0] {
        a[0] < b[0]
    } else {
        numbers_before(a.drop_first(), b.drop_first())
    }
}

/// Whether a product comes before another: by page and tune number, then by path.
pub open spec fn page_before(a: Seq<PartView>, b: Seq<PartView>) -> bool {
    ||| numbers_before(page_numbers(a), page_numbers(b))
    ||| page_numbers(a) == page_numbers(b) && key_before(path_key(a), path_key(b))
}

/// The key by which a product is ordered: its numbers, an end mark, its path.
pub open spec fn page_key(parts: Seq<PartView>) -> Seq<Seq<u8>> {
    page_numbers(parts).map_values(|n: nat| number_key(n)).push(seq![]) + path_key(parts)
}

/// The keys by which products are ordered.
pub open spec fn page_keys(paths: Seq<PathBuf>) -> Seq<Seq<Seq<u8>>> {
    paths.map_values(|p: PathBuf| page_key(path_components(p)))
}

/// The SVG files to show: LilyPond's cropped single image if there is one, otherwise all
/// `out*.svg` files in page/tune order (see [`law_page_order`]).
pub open spec fn chosen_svgs(cropped: Option<PathBuf>, listing: Seq<PathBuf>) -> Seq<PathBuf> {
    match cropped {
        Some(path) => seq![path],
        None => sorted_by(products(listing), page_keys(products(listing))),
    }
}

/// Numbers with an end mark, and more behind it, are ordered as the numbers are, and then as
/// what stands behind.
proof fn lemma_marked_numbers(a: Seq<nat>, x: Seq<Seq<u8>>, b: Seq<nat>, y: Seq<Seq<u8>>)
    ensures
        key_before(
            a.map_values(|n: nat| number_key(n)).push(seq![]) + x,
            b.map_values(|n: nat| number_key(n)).push(seq![]) + y,
        ) == (numbers_before(a, b) || (a == b && key_before(x, y))),
    decreases a.len(),
{
    let f = |n: nat| number_key(n);
    let left = a.map_values(f).push(seq![]) + x;
    let right = b.map_values(f).push(seq![]) + y;
    if a.len() == 0 && b.len() == 0 {
        assert(a =~= b);
        assert(left.drop_first() =~= x && right.drop_first() =~= y);
        assert(left[0] == right[0]);
    } else if a.len() == 0 {
        lemma_decimal(b[0]);
        assert(left[0] == Seq::<u8>::empty() && right[0] == number_key(b[0]));
    } else if b.len() == 0 {
        lemma_decimal(a[0]);
        assert(left[0] == number_key(a[0]) && right[0] == Seq::<u8>::empty());
    } else {
        assert(left[0] == number_key(a[0]) && right[0] == number_key(b[0]));
        law_number_key(a[0], b[0]);
        if a[0] == b[0] {
            lemma_marked_numbers(a.drop_first(), x, b.drop_first(), y);
            assert(left.drop_first() =~= a.drop_first().map_values(f).push(seq![]) + x);
            assert(right.drop_first() =~= b.drop_first().map_values(f).push(seq![]) + y);
            if a.drop_first() == b.drop_first() {
                assert(a =~= seq![a[0]] + a.drop_first());
                assert(b =~= seq![b[0]] + b.drop_first());
            }
        }
    }
}

/// A file is shown after no file that comes behind it in page/tune order, and exactly the
/// products are shown.
pub proof fn law_page_order(listing: Seq<PathBuf>)
    ensures
        ({
            let svgs = chosen_svgs(None, listing);
            &&& svgs.to_multiset() == products(listing).to_multiset()
            &&& forall|i: int, j: int|
                0 <= i < j < svgs.len() ==> !page_before(
                    path_components(#[trigger] svgs[j]),
                    path_components(#[trigger] svgs[i]),
                )
        }),
{
    let found = products(listing);
    let keys = page_keys(found);
    let svgs = chosen_svgs(None, listing);
    law_sorted(found, keys);
    law_stable_order_unique(keys, seq![]);
    assert(sorted_by(keys, keys) =~= page_keys(svgs));
    assert forall|i: int, j: int| 0 <= i < j < svgs.len() implies !page_before(
        path_components(#[trigger] svgs[j]),
        path_components(#[trigger] svgs[i]),
    ) by {
        let a = path_components(svgs[j]);
        let b = path_components(svgs[i]);
        assert(!key_before(sorted_by(keys, keys)[j], sorted_by(keys, keys)[i]));
        lemma_marked_numbers(page_numbers(a), path_key(a), page_numbers(b), path_key(b));
    }
}

/// Collects the rows of digits in a text.
fn digit_rows(s: &[char]) -> (rows: Vec<Vec<char>>)
    ensures
        rows@.len() == numbers_in(s@).len(),
        forall|k: int| 0 <= k < rows@.len() ==> is_number(#[trigger] rows@[k]@, numbers_in(s@)[k]),
{
    let mut rows: Vec<Vec<char>> = Vec::new();
    let mut i: usize = 0;
    while i < s.len()
        invariant
            i <= s@.len(),
            rows@.len() == numbers_in(s@.take(i as int)).len(),
            i > 0 && is_digit(s@[i - 1]) ==> rows@.len() > 0,
            forall|k: int|
                0 <= k < rows@.len() ==> is_number(#[trigger] rows@[k]@, numbers_in(s@.take(i as int))[k]),
        decreases s@.len() - i,
    {
        let c = s[i];
        let ghost given = rows@;
        let ghost t = s@.take(i + 1);
        let ghost before = numbers_in(s@.take(i as int));
        proof {
            reveal_with_fuel(digits_value, 2);
            assert(t.drop_last() =~= s@.take(i as int));
            assert(t.last() == c);
            assert(i > 0 ==> t[t.len() - 2] == s@[i - 1]);
        }
        if '0' <= c && c <= '9' {
            let more: bool = i > 0 && '0' <= s[i - 1] && s[i - 1] <= '9';
            let mut row: Vec<char> = Vec::new();
            if more {
                if let Some(last) = rows.pop() {
                    row = last;
                }
                assert(is_number(row@, before.last()));
            }
            let ghost digits = row@;
            row.push(c);
            assert(row@.drop_last() =~= digits);
            rows.push(row);
            proof {
                let after = numbers_in(t);
                assert(is_number(row@, after.last())) by {
                    assert forall|k: int| 0 <= k < row@.len() implies is_digit(#[trigger] row@[k]) by {
                        if k < digits.len() {
                            assert(is_digit(digits[k]));
                        }
                    }
                }
                assert forall|k: int| 0 <= k < rows@.len() implies is_number(#[trigger] rows@[k]@, after[k]) by {
                    if k < rows@.len() - 1 {
                        assert(rows@[k] == given[k]);
                        assert(is_number(given[k]@, before[k]));
                    }
                }
            }
        }
        i += 1;
    }
    assert(s@.take(i as int) =~= s@);
    rows
}

/// Whether a row of digits denotes a number.
spec fn is_number(row: Seq<char>, n: nat) -> bool {
    &&& row.len() > 0
    &&& forall|i: int| 0 <= i < row.len() ==> is_digit(#[trigger] row[i])
    &&& digits_value(row) == n
}

/// Computes the key by which a product is ordered.
fn product_key(parts: &Vec<Part>) -> (key: Vec<Vec<u8>>)
    ensures
        key_view(key@) == page_key(part_views(parts@)),
{
    let ghost numbers = page_numbers(part_views(parts@));
    let ghost f = |n: nat| number_key(n);
    let mut key: Vec<Vec<u8>> = Vec::new();
    if let Some(stem) = stem_text(parts) {
        let chars = chars_of(stem.as_str());
        let rows = digit_rows(chars.as_slice());
        let mut i: usize = 0;
        while i < rows.len()
            invariant
                i <= rows@.len(),
                rows@.len() == numbers.len(),
                key@.len() == i,
                forall|k: int| 0 <= k < rows@.len() ==> is_number(#[trigger] rows@[k]@, numbers[k]),
                forall|k: int| 0 <= k < i ==> (#[trigger] key@[k])@ == number_key(numbers[k]),
            decreases rows@.len() - i,
        {
            assert(is_number(rows@[i as int]@, numbers[i as int]));
            key.push(digits_key(rows[i].as_slice()));
            i += 1;
        }
    }
    assert(key_view(key@) =~= numbers.map_values(f));
    let end: Vec<u8> = Vec::new();
    assert(end@ =~= seq![]);
    key.push(end);
    let ghost front = key@;
    assert(key_view(front) =~= numbers.map_values(f).push(seq![]));
    let mut path = sort_key(parts);
    let ghost back = path@;
    key.append(&mut path);
    assert(key_view(key@) =~= key_view(front) + key_view(back));
    key
}

/// Whether a file with the given path components is an SVG product of an engraver.
pub fn is_svg_product(parts: &Vec<Part>) -> (r: bool)
    ensures
        r == is_product(part_views(parts@)),
{
    match (extension_text(parts), stem_text(parts)) {
        (Some(ext), Some(stem)) => {
            let s = chars_of(stem.as_str());
            proof {
                reveal_strlit("out");
                let p = "out"@;
                assert(p =~= seq!['o', 'u', 't']);
                if s@.len() >= 3 {
                    assert(s@.take(3)[0] == s@[0] && s@.take(3)[1] == s@[1] && s@.take(3)[2] == s@[2]);
                    if s@[0] == 'o' && s@[1] == 'u' && s@[2] == 't' {
                        assert(s@.take(3) =~= p);
                    }
                }
            }
            ext == String::from_str("svg") && s.len() >= 3 && s[0] == 'o' && s[1] == 'u' && s[2] == 't'
        },
        _ => false,
    }
}

/// Chooses the SVG files to show. `cropped` is the cropped image if it exists, `listing` the
/// files of the scratch directory.
pub fn collect_svgs(cropped: Option<PathBuf>, listing: Vec<PathBuf>) -> (svgs: Vec<PathBuf>)
    ensures
        svgs@ == chosen_svgs(cropped, listing@),
{
    if let Some(path) = cropped {
        let svgs: Vec<PathBuf> = vec![path];
        assert(svgs@ =~= seq![path]);
        return svgs;
    }
    let ghost all = listing@;
    let mut found: Vec<PathBuf> = Vec::new();
    let mut keys: Vec<Vec<Vec<u8>>> = Vec::new();
    assert(all.take(0) =~= seq![]);
    assert(key_views(keys@) =~= page_keys(seq![]));
    for path in it: listing
        invariant
            it.seq() == all,
            found@.len() == keys@.len(),
            found@ == products(all.take(it.index())),
            key_views(keys@) == page_keys(found@),
    {
        let ghost before = found@;
        let ghost keys_before = keys@;
        assert(all.take(it.index() + 1).drop_last() =~= all.take(it.index()));
        assert(all.take(it.index() + 1).last() == path);
        let parts = components(&path);
        if is_svg_product(&parts) {
            keys.push(product_key(&parts));
            found.push(path);
            assert(key_views(keys@) =~= key_views(keys_before).push(page_key(path_components(path))));
            assert(page_keys(found@) =~= page_keys(before).push(page_key(path_components(path))));
        }
    }
    assert(all.take(all.len() as int) =~= all);
    sort_by_keys(found, keys)
}

/// `Arc::from` puts a byte vector behind a shared pointer.
#[verifier::external_body]
fn share(bytes: Vec<u8>) -> (shared: Arc<[u8]>)
    ensures
        shared@ == bytes@,
{
    Arc::from(bytes)
}

/// The content-addressed URI of an image.
pub open spec fn image_uri(image: Seq<u8>, suffix: Seq<char>) -> Seq<char> {
    "bytes://"@ + lower_hex(blake3_digest(image)) + suffix
}

/// The page made of an SVG file and, if there is one, its rasterization as PNG.
pub open spec fn page_of(svg: Seq<u8>, png: Option<Seq<u8>>) -> PageView {
    match png {
        Some(image) => PageView {
            uri: image_uri(image, ".png"@),
            bytes: image,
            width: svg_length(svg),
            render_scale: RENDER_SCALE,
        },
        None => PageView {
            uri: image_uri(svg, ".svg"@),
            bytes: svg,
            width: svg_length(svg),
            render_scale: 1,
        },
    }
}

/// Identical output has the same URI, whichever source it was rendered from.
pub proof fn law_same_image_same_uri(svg1: Seq<u8>, png1: Option<Seq<u8>>, svg2: Seq<u8>, png2: Option<Seq<u8>>)
    requires
        png1 is Some <==> png2 is Some,
        page_of(svg1, png1).bytes == page_of(svg2, png2).bytes,
    ensures
        page_of(svg1, png1).uri == page_of(svg2, png2).uri,
{
}

/// The content-addressed URI of an image.
fn uri_of(image: &Vec<u8>, suffix: &str) -> (uri: String)
    ensures
        uri@ == image_uri(image@, suffix@),
{
    let mut uri = String::from_str("bytes://");
    uri.append(content_hash(image.as_slice()).as_str());
    uri.append(suffix);
    uri
}

/// Makes a page of an SVG file. The PNG rasterization is preferred, as it carries the text;
/// without one the raw SVG (music only) is shown.
pub fn read_page(svg: Vec<u8>, png: Option<Vec<u8>>) -> (page: Page)
    ensures
        page@ == page_of(
            svg@,
            match png {
                Some(image) => Some(image@),
                None => None,
            },
        ),
{
    let width = svg_width(svg.as_slice());
    match png {
        Some(image) => Page {
            uri: uri_of(&image, ".png"),
            bytes: share(image),
            width,
            render_scale: RENDER_SCALE,
        },
        None => Page { uri: uri_of(&svg, ".svg"), bytes: share(svg), width, render_scale: 1 },
    }
}

/// The options with which `rsvg-convert` rasterizes an SVG file on a white "paper"
/// background; the PNG file and the SVG file follow them.
pub open spec fn raster_options() -> Seq<Seq<char>> {
    seq!["-z"@, decimal(RENDER_SCALE as nat), "-b"@, "white"@, "-o"@]
}

/// The options with which `rsvg-convert` is run.
pub fn rasterize_png() -> (options: Vec<String>)
    ensures
        crate::path::texts(options@) == raster_options(),
{
    let mut scale = String::new();
    push_decimal(&mut scale, RENDER_SCALE as u64);
    let mut options: Vec<String> = Vec::new();
    options.push(String::from_str("-z"));
    options.push(scale);
    options.push(String::from_str("-b"));
    options.push(String::from_str("white"));
    options.push(String::from_str("-o"));
    assert(scale@ =~= decimal(RENDER_SCALE as nat));
    assert(crate::path::texts(options@) =~= raster_options());
    options
}

/// A quotation mark.
pub open spec fn is_quote(c: char) -> bool {
    c == '"' || c == '\''
}

/// The quoted value of an attribute, if a text begins with the attribute.
pub open spec fn quoted_value(s: Seq<char>, name: Seq<char>) -> Option<Seq<char>> {
    let sign = trimmed_start(s.skip(name.len() as int));
    let value = trimmed_start(sign.skip(1));
    if has_prefix(s, name) && sign.len() > 0 && sign[0] == '=' && value.len() > 0 && is_quote(value[0]) {
        match find_text(value.skip(1), seq![value[0]], 0) {
            Some(end) => Some(value.skip(1).take(end)),
            None => None,
        }
    } else {
        None
    }
}

/// The value of the first attribute of a name in a tag, looked for from place `i` on. An
/// attribute begins where the text does, behind white space or behind a closing quotation mark,
/// and outside of quotes; `quote` is the mark that has been opened, if one has. The tag ends
/// with a `>`.
pub open spec fn attr_from(s: Seq<char>, name: Seq<char>, i: nat, quote: Option<char>) -> Option<Seq<char>>
    decreases s.len() - i,
{
    if i >= s.len() {
        None
    } else {
        let c = s[i as int];
        match quote {
            Some(q) => attr_from(
                s,
                name,
                i + 1,
                if c == q {
                    None
                } else {
                    quote
                },
            ),
            None => if c == '>' {
                None
            } else if (i == 0 || white_space(s[i - 1]) || is_quote(s[i - 1])) && quoted_value(
                s.skip(i as int),
                name,
            ) is Some {
                quoted_value(s.skip(i as int), name)
            } else {
                attr_from(
                    s,
                    name,
                    i + 1,
                    if is_quote(c) {
                        Some(c)
                    } else {
                        None
                    },
                )
            },
        }
    }
}

/// The trimmed value of the first attribute of a name in a tag.
pub open spec fn attr_value(tag: Seq<char>, name: Seq<char>) -> Option<Seq<char>> {
    match attr_from(tag, name, 0, None) {
        Some(value) => Some(trimmed(value)),
        None => None,
    }
}

/// A character that ends the name of an element.
pub open spec fn ends_name(c: char) -> bool {
    white_space(c) || c == '>' || c == '/' || c == '<'
}

/// How long the name is that a text begins with.
pub open spec fn name_len(s: Seq<char>) -> nat
    decreases s.len(),
{
    if s.len() > 0 && !ends_name(s[0]) {
        1 + name_len(s.skip(1))
    } else {
        0
    }
}

/// Whether an element name is `svg`, by itself or behind the prefix of a namespace and a colon.
pub open spec fn is_svg_name(name: Seq<char>) -> bool {
    let n = name.len() as int;
    n >= 3 && name.skip(n - 3) == seq!['s', 'v', 'g'] && (n == 3 || n > 4 && name[n - 4] == ':')
}

/// What follows the name in the first `svg` start tag of a text, looked for from place `i` on.
/// Comments are passed over; `comment` tells whether one has been opened.
pub open spec fn root_from(s: Seq<char>, i: nat, comment: bool) -> Option<Seq<char>>
    decreases s.len() - i,
{
    if i >= s.len() {
        None
    } else if comment {
        if has_prefix(s.skip(i as int), seq!['-', '-', '>']) {
            root_from(s, i + 3, false)
        } else {
            root_from(s, i + 1, true)
        }
    } else if has_prefix(s.skip(i as int), seq!['<', '!', '-', '-']) {
        root_from(s, i + 4, true)
    } else if s[i as int] == '<' && is_svg_name(s.skip(i as int + 1).take(name_len(s.skip(i as int + 1)) as int)) {
        Some(s.skip(i as int + 1 + name_len(s.skip(i as int + 1))))
    } else {
        root_from(s, i + 1, false)
    }
}

/// What follows the name in the tag of the root `<svg>` element.
pub open spec fn root_tag(s: Seq<char>) -> Option<Seq<char>> {
    root_from(s, 0, false)
}

/// A character of a numeral.
pub open spec fn in_numeral(c: char) -> bool {
    is_digit(c) || c == '.' || c == '-'
}

/// How many characters at the beginning of a text belong to a numeral.
pub open spec fn numeral_len(s: Seq<char>) -> nat
    decreases s.len(),
{
    if s.len() > 0 && in_numeral(s[0]) {
        1 + numeral_len(s.drop_first())
    } else {
        0
    }
}

/// The unit that a text names.
pub open spec fn unit_of(s: Seq<char>) -> Unit {
    if s == "mm"@ {
        Unit::Mm
    } else if s == "cm"@ {
        Unit::Cm
    } else if s == "pt"@ {
        Unit::Pt
    } else if s == "in"@ {
        Unit::In
    } else {
        Unit::Px
    }
}

/// The length that a text denotes: the numeral it begins with and the unit that follows.
pub open spec fn length_of(value: Seq<char>) -> LengthView {
    let n = numeral_len(value) as int;
    LengthView { number: value.take(n), unit: unit_of(trimmed(value.skip(n))) }
}

/// The length that an attribute of a tag gives.
pub open spec fn attr_length(s: Seq<char>, name: Seq<char>) -> Option<LengthView> {
    match attr_value(s, name) {
        Some(value) => Some(length_of(value)),
        None => None,
    }
}

/// How far into an SVG file its root element is looked for.
pub const HEAD_LEN: usize = 2048;

/// The width of an SVG image: that of its root element, which stands near the beginning of the
/// file.
pub open spec fn svg_length(svg: Seq<u8>) -> Option<LengthView> {
    let n = if svg.len() < HEAD_LEN { svg.len() as int } else { HEAD_LEN as int };
    match root_tag(lossy_utf8(svg.take(n))) {
        Some(tag) => attr_length(tag, "width"@),
        None => None,
    }
}

/// Whether a text has another at a place.
fn stands_at(s: &[char], i: usize, part: &[char]) -> (r: bool)
    requires
        i <= s@.len(),
    ensures
        r == has_prefix(s@.skip(i as int), part@),
{
    let ghost rest = s@.skip(i as int);
    let len: usize = s.len();
    if part.len() > len - i {
        return false;
    }
    let mut k: usize = 0;
    while k < part.len()
        invariant
            len == s@.len(),
            i + part@.len() <= s@.len(),
            rest == s@.skip(i as int),
            k <= part@.len(),
            forall|j: int| 0 <= j < k ==> rest[j] == part@[j],
        decreases part@.len() - k,
    {
        if s[i + k] != part[k] {
            assert(rest.take(part@.len() as int)[k as int] != part@[k as int]);
            return false;
        }
        k += 1;
    }
    assert(rest.take(part@.len() as int) =~= part@);
    true
}

/// Reads the quoted value of the attribute that a text begins with.
fn read_quoted<'a>(s: &'a [char], name: &[char]) -> (value: Option<&'a [char]>)
    ensures
        match value {
            Some(v) => quoted_value(s@, name@) == Some(v@),
            None => quoted_value(s@, name@) is None,
        },
{
    assert(s@.skip(0) =~= s@);
    if !stands_at(s, 0, name) {
        return None;
    }
    let behind = slice_subrange(s, name.len(), s.len());
    assert(behind@ =~= s@.skip(name@.len() as int));
    let sign = trim_start(behind);
    if sign.len() == 0 || sign[0] != '=' {
        return None;
    }
    let after = slice_subrange(sign, 1, sign.len());
    assert(after@ =~= sign@.skip(1));
    let value = trim_start(after);
    if value.len() == 0 || (value[0] != '"' && value[0] != '\'') {
        return None;
    }
    let quote: Vec<char> = vec![value[0]];
    assert(quote@ =~= seq![value@[0]]);
    let inner = slice_subrange(value, 1, value.len());
    assert(inner@ =~= value@.skip(1));
    match find(inner, quote.as_slice()) {
        Some(end) => {
            assert(inner@.subrange(0, end as int) =~= inner@.take(end as int));
            Some(slice_subrange(inner, 0, end))
        },
        None => None,
    }
}

/// Finds the value of the first attribute of a name in a tag.
fn find_attr<'a>(s: &'a [char], name: &[char]) -> (value: Option<&'a [char]>)
    ensures
        match value {
            Some(v) => attr_from(s@, name@, 0, None) == Some(v@),
            None => attr_from(s@, name@, 0, None) is None,
        },
{
    let mut quote: Option<char> = None;
    let mut i: usize = 0;
    while i < s.len()
        invariant
            i <= s@.len(),
            attr_from(s@, name@, i as nat, quote) == attr_from(s@, name@, 0, None),
        decreases s@.len() - i,
    {
        let c = s[i];
        match quote {
            Some(q) => {
                if c == q {
                    quote = None;
                }
            },
            None => {
                if c == '>' {
                    return None;
                }
                if i == 0 || s[i - 1].is_whitespace() || s[i - 1] == '"' || s[i - 1] == '\'' {
                    let rest = slice_subrange(s, i, s.len());
                    assert(rest@ =~= s@.skip(i as int));
                    if let Some(value) = read_quoted(rest, name) {
                        return Some(value);
                    }
                }
                if c == '"' || c == '\'' {
                    quote = Some(c);
                }
            },
        }
        i += 1;
    }
    None
}

/// Where the name ends that begins at place `from`.
fn name_end(s: &[char], from: usize) -> (end: usize)
    requires
        from <= s@.len(),
    ensures
        from <= end <= s@.len(),
        end == from + name_len(s@.skip(from as int)),
{
    let mut n: usize = from;
    while n < s.len() && !(s[n].is_whitespace() || s[n] == '>' || s[n] == '/' || s[n] == '<')
        invariant
            from <= n <= s@.len(),
            n + name_len(s@.skip(n as int)) == from + name_len(s@.skip(from as int)),
        decreases s@.len() - n,
    {
        assert(s@.skip(n as int).skip(1) =~= s@.skip(n + 1));
        n += 1;
    }
    n
}

/// Whether an element name is `svg`, with or without a namespace.
fn names_svg(name: &[char]) -> (r: bool)
    ensures
        r == is_svg_name(name@),
{
    let n: usize = name.len();
    if n < 3 {
        return false;
    }
    let ghost end = name@.skip(n - 3);
    assert(end[0] == name@[n - 3] && end[1] == name@[n - 2] && end[2] == name@[n - 1]);
    if name[n - 3] != 's' || name[n - 2] != 'v' || name[n - 1] != 'g' {
        return false;
    }
    assert(end =~= seq!['s', 'v', 'g']);
    n == 3 || (n > 4 && name[n - 4] == ':')
}

/// Finds the tag of the root `<svg>` element, and gives what follows its name.
pub fn find_root(s: &[char]) -> (tag: Option<&[char]>)
    ensures
        match tag {
            Some(t) => root_tag(s@) == Some(t@),
            None => root_tag(s@) is None,
        },
{
    let open: Vec<char> = vec!['<', '!', '-', '-'];
    let close: Vec<char> = vec!['-', '-', '>'];
    proof {
        assert(open@ =~= seq!['<', '!', '-', '-']);
        assert(close@ =~= seq!['-', '-', '>']);
    }
    let mut comment: bool = false;
    let mut i: usize = 0;
    while i < s.len()
        invariant
            i <= s@.len(),
            open@ == seq!['<', '!', '-', '-'],
            close@ == seq!['-', '-', '>'],
            root_from(s@, i as nat, comment) == root_tag(s@),
        decreases s@.len() - i,
    {
        if comment {
            if stands_at(s, i, close.as_slice()) {
                comment = false;
                i += 3;
            } else {
                i += 1;
            }
        } else if stands_at(s, i, open.as_slice()) {
            comment = true;
            i += 4;
        } else {
            if s[i] == '<' {
                let end = name_end(s, i + 1);
                let ghost rest = s@.skip(i + 1);
                assert(s@.subrange(i + 1, end as int) =~= rest.take(end - i - 1));
                if names_svg(slice_subrange(s, i + 1, end)) {
                    assert(s@.skip(end as int) =~= s@.subrange(end as int, s@.len() as int));
                    return Some(slice_subrange(s, end, s.len()));
                }
            }
            i += 1;
        }
    }
    None
}

/// Reads the length that an attribute of a tag gives.
pub fn attr_px(tag: &[char], name: &str) -> (length: Option<Length>)
    ensures
        length_view(length) == attr_length(tag@, name@),
{
    let wanted = chars_of(name);
    let value = match find_attr(tag, wanted.as_slice()) {
        Some(v) => trim(v),
        None => {
            return None;
        },
    };
    let mut n: usize = 0;
    assert(value@.skip(0) =~= value@);
    while n < value.len() && (('0' <= value[n] && value[n] <= '9') || value[n] == '.' || value[n] == '-')
        invariant
            n <= value@.len(),
            n + numeral_len(value@.skip(n as int)) == numeral_len(value@),
        decreases value@.len() - n,
    {
        assert(value@.skip(n as int).drop_first() =~= value@.skip(n + 1));
        n += 1;
    }
    let number = string_of(slice_subrange(value, 0, n));
    let unit_text = string_of(trim(slice_subrange(value, n, value.len())));
    assert(value@.subrange(0, n as int) =~= value@.take(n as int));
    assert(value@.subrange(n as int, value@.len() as int) =~= value@.skip(n as int));
    let unit: Unit = if unit_text == String::from_str("mm") {
        Unit::Mm
    } else if unit_text == String::from_str("cm") {
        Unit::Cm
    } else if unit_text == String::from_str("pt") {
        Unit::Pt
    } else if unit_text == String::from_str("in") {
        Unit::In
    } else {
        Unit::Px  // px or unitless
    };
    Some(Length { number, unit })
}

/// Reads the width of the root `<svg>` element.
pub fn svg_width(svg: &[u8]) -> (width: Option<Length>)
    ensures
        length_view(width) == svg_length(svg@),
{
    let n: usize = if svg.len() < HEAD_LEN { svg.len() } else { HEAD_LEN };
    assert(svg@.subrange(0, n as int) =~= svg@.take(n as int));
    let head = from_utf8_lossy(slice_subrange(svg, 0, n));
    let chars = chars_of(head.as_str());
    match find_root(chars.as_slice()) {
        Some(tag) => attr_px(tag, "width"),
        None => None,
    }
}

/// A command does what its request asks: it writes the source of the request to its input file,
/// which is its last argument, and runs in the directory of the request. LilyPond is told that
/// directory for included files. Of an ABC file a single tune is selected exactly if the request
/// names one.
pub proof fn law_command_of_request(req: RenderRequest, command: EngraverCommand)
    requires
        call_ensures(render, (&req,), command),
    ensures
        command.source@ == req.source@,
        command.dir == req.base_dir,
        command.args@.len() > 0,
        command.args@[command.args@.len() - 1]@ == ArgView::Work(command.input@),
        req.format == Format::LilyPond ==> {
            &&& command.program@ == "lilypond"@
            &&& command.input@ == "sheet.ly"@
            &&& exists|k: int|
                0 <= k < command.args@.len() && (#[trigger] command.args@[k])@ == ArgView::Text(
                    "-I"@ + path_shown(req.base_dir),
                )
        },
        req.format == Format::Abc ==> {
            &&& command.program@ == "abcm2ps"@
            &&& command.input@ == "sheet.abc"@
            &&& req.tune is Some ==> exists|k: int|
                0 <= k < command.args@.len() && (#[trigger] command.args@[k])@ == ArgView::Text(
                    "-e"@ + decimal(req.tune->0 as nat),
                )
            &&& req.tune is None ==> forall|k: int, text: Seq<char>|
                0 <= k < command.args@.len() && (#[trigger] command.args@[k])@ == ArgView::Text(text)
                    ==> !(#[trigger] has_prefix(text, "-e"@))
        },
        exists|k: int|
            0 < k < command.args@.len() && (#[trigger] command.args@[k])@ == ArgView::Work("out"@) && (command.args@[k
                - 1]@ == ArgView::Text("-o"@) || command.args@[k - 1]@ == ArgView::Text("-O"@)),
{
    let args = arg_views(command.args@);
    assert(args.len() == command.args@.len());
    assert forall|k: int| 0 <= k < args.len() implies args[k] == (#[trigger] command.args@[k])@ by {}
    match req.format {
        Format::LilyPond => {
            assert(command.args@[3]@ == args[3]);
            assert(command.args@[5]@ == args[5]);
            assert(command.args@[4]@ == args[4]);
            assert(command.args@[6]@ == args[6]);
        },
        Format::Abc => {
            assert(command.args@[0]@ == args[0]);
            assert(command.args@[1]@ == args[1]);
            assert(command.args@[2]@ == args[2]);
            assert(command.args@[3]@ == args[3]);
            if req.tune is Some {
                assert(args.len() == 5);
                assert(command.args@[4]@ == args[4]);
            } else {
                assert(args.len() == 4);
                reveal_strlit("-e");
                reveal_strlit("-g");
                reveal_strlit("-O");
                assert forall|k: int, text: Seq<char>|
                    0 <= k < command.args@.len() && (#[trigger] command.args@[k])@ == ArgView::Text(text) implies !(
                #[trigger] has_prefix(text, "-e"@)) by {
                    assert(args[k] == ArgView::Text(text));
                    if has_prefix(text, "-e"@) {
                        assert(text.take(2)[1] == "-e"@[1]);
                        assert(text[1] == 'e');
                    }
                }
            }
        },
    }
}

/// Both formats are rendered by their own command, whichever way it is asked for.
pub proof fn law_commands_agree(req: RenderRequest, command: EngraverCommand, lilypond: EngraverCommand, abc: EngraverCommand)
    requires
        call_ensures(render, (&req,), command),
        call_ensures(render_lilypond, (&req,), lilypond),
        call_ensures(render_abc, (&req,), abc),
    ensures
        lilypond.source@ == req.source@ && abc.source@ == req.source@,
        lilypond.dir == req.base_dir && abc.dir == req.base_dir,
        req.format == Format::LilyPond ==> command@ == lilypond@,
        req.format == Format::Abc ==> command@ == abc@,
{
}

/// Whether a path names an SVG product of an engraver: its last component is a Unicode stem that
/// begins with `out`, a dot and `svg`.
pub open spec fn is_out_svg(parts: Seq<PartView>) -> bool {
    &&& parts.len() > 0
    &&& parts.last() is Normal
    &&& exists|stem: Seq<u8>|
        {
            &&& parts.last()->Normal_0 == #[trigger] (stem + seq![46u8]) + encode_utf8("svg"@)
            &&& valid_utf8(stem)
            &&& decode_utf8(stem).len() >= 3
            &&& decode_utf8(stem)[0] == 'o' && decode_utf8(stem)[1] == 'u' && decode_utf8(stem)[2] == 't'
        }
}

/// The bytes of `svg` hold no dot.
proof fn lemma_svg_bytes()
    ensures
        !encode_utf8("svg"@).contains(46),
        valid_utf8(encode_utf8("svg"@)),
        decode_utf8(encode_utf8("svg"@)) == "svg"@,
{
    reveal_strlit("svg");
    let chars = "svg"@;
    assert(is_ascii_chars(chars));
    is_ascii_chars_encode_utf8(chars);
    encode_utf8_valid_utf8(chars);
    encode_utf8_decode_utf8(chars);
    if encode_utf8(chars).contains(46) {
        let i = encode_utf8(chars).index_of(46);
        assert(chars[i] as u8 == 46);
    }
}

/// A product is what its name says.
proof fn lemma_is_product(parts: Seq<PartView>)
    ensures
        is_product(parts) <==> is_out_svg(parts),
{
    lemma_svg_bytes();
    reveal_strlit("out");
    let svg = encode_utf8("svg"@);
    if is_product(parts) {
        let name = parts.last()->Normal_0;
        let ext = extension_of(name)->0;
        let stem = stem_of(name);
        lemma_rejoined(name);
        decode_utf8_encode_utf8(ext);
        assert(ext == svg);
        assert(name == (stem + seq![46u8]) + svg);
        let text = decode_utf8(stem);
        assert(text.take(3)[0] == text[0] && text.take(3)[1] == text[1] && text.take(3)[2] == text[2]);
    }
    if is_out_svg(parts) {
        let stem = choose|stem: Seq<u8>|
            {
                &&& parts.last()->Normal_0 == #[trigger] (stem + seq![46u8]) + svg
                &&& valid_utf8(stem)
                &&& decode_utf8(stem).len() >= 3
                &&& decode_utf8(stem)[0] == 'o' && decode_utf8(stem)[1] == 'u' && decode_utf8(stem)[2] == 't'
            };
        assert(stem.len() > 0) by {
            if stem.len() == 0 {
                assert(decode_utf8(stem).len() == 0);
            }
        }
        lemma_split(stem, svg);
        assert(decode_utf8(stem).take(3) =~= "out"@);
    }
}

/// Of every path, the products hold as many as the listing, if it is a product.
proof fn lemma_products_count(listing: Seq<PathBuf>, path: PathBuf)
    ensures
        products(listing).to_multiset().count(path) == if is_product(path_components(path)) {
            listing.to_multiset().count(path)
        } else {
            0
        },
    decreases listing.len(),
{
    products(listing).to_multiset_ensures();
    listing.to_multiset_ensures();
    if listing.len() > 0 {
        let init = listing.drop_last();
        let last = listing.last();
        lemma_products_count(init, path);
        init.to_multiset_ensures();
        products(init).to_multiset_ensures();
        assert(listing =~= init.push(last));
    }
}

/// Without a cropped image every SVG product of the listing is shown, as often as it is listed
/// and whatever their number, and no other file is; a cropped image is shown alone.
pub proof fn law_all_products_shown(
    cropped: Option<PathBuf>,
    listing: Vec<PathBuf>,
    svgs: Vec<PathBuf>,
    path: PathBuf,
)
    requires
        call_ensures(collect_svgs, (cropped, listing), svgs),
    ensures
        cropped is None ==> svgs@.to_multiset().count(path) == if is_out_svg(path_components(path)) {
            listing@.to_multiset().count(path)
        } else {
            0
        },
        cropped is Some ==> svgs@ == seq![cropped->0],
{
    if cropped is None {
        law_page_order(listing@);
        lemma_products_count(listing@, path);
        lemma_is_product(path_components(path));
    }
}

/// Text without digits holds no number.
proof fn lemma_no_numbers(s: Seq<char>)
    requires
        forall|i: int| 0 <= i < s.len() ==> !is_digit(#[trigger] s[i]),
    ensures
        numbers_in(s) == Seq::<nat>::empty(),
    decreases s.len(),
{
    if s.len() > 0 {
        let init = s.drop_last();
        assert(!is_digit(s[s.len() - 1]));
        assert forall|i: int| 0 <= i < init.len() implies !is_digit(#[trigger] init[i]) by {
            assert(init[i] == s[i]);
        }
        lemma_no_numbers(init);
    }
}

/// A row of digits behind other text is one number.
proof fn lemma_one_number(front: Seq<char>, digits: Seq<char>)
    requires
        forall|i: int| 0 <= i < front.len() ==> !is_digit(#[trigger] front[i]),
        digits.len() > 0,
        forall|i: int| 0 <= i < digits.len() ==> is_digit(#[trigger] digits[i]),
    ensures
        numbers_in(front + digits) == seq![digits_value(digits)],
    decreases digits.len(),
{
    reveal_with_fuel(digits_value, 2);
    let s = front + digits;
    let init = digits.drop_last();
    assert(s.drop_last() =~= front + init);
    assert(s.last() == digits[digits.len() - 1]);
    if init.len() > 0 {
        assert forall|i: int| 0 <= i < init.len() implies is_digit(#[trigger] init[i]) by {
            assert(init[i] == digits[i]);
        }
        lemma_one_number(front, init);
        assert(s[s.len() - 2] == digits[digits.len() - 2]);
        assert(is_digit(digits[digits.len() - 2]));
        assert(numbers_in(s) =~= seq![digits_value(digits)]);
    } else {
        assert(front + init =~= front);
        assert(init =~= seq![]);
        lemma_no_numbers(front);
        if s.len() > 1 {
            assert(s[s.len() - 2] == front[front.len() - 1]);
        }
        assert(numbers_in(s) =~= seq![digits_value(digits)]);
    }
}

/// Pages are shown in the order of their numbers, of any size: of two products whose stems end in
/// a number, the one with the smaller number is shown first.
pub proof fn law_pages_by_number(
    listing: Vec<PathBuf>,
    svgs: Vec<PathBuf>,
    i: int,
    j: int,
    dir: Seq<PartView>,
    other_dir: Seq<PartView>,
    front: Seq<char>,
    other_front: Seq<char>,
    digits: Seq<char>,
    other_digits: Seq<char>,
)
    requires
        call_ensures(collect_svgs, (None, listing), svgs),
        0 <= i < svgs@.len(),
        0 <= j < svgs@.len(),
        path_components(svgs@[i]) == dir.push(
            PartView::Normal(encode_utf8(front + digits) + seq![46u8] + encode_utf8("svg"@)),
        ),
        path_components(svgs@[j]) == other_dir.push(
            PartView::Normal(encode_utf8(other_front + other_digits) + seq![46u8] + encode_utf8("svg"@)),
        ),
        forall|k: int| 0 <= k < front.len() ==> !is_digit(#[trigger] front[k]),
        forall|k: int| 0 <= k < other_front.len() ==> !is_digit(#[trigger] other_front[k]),
        digits.len() > 0,
        other_digits.len() > 0,
        forall|k: int| 0 <= k < digits.len() ==> is_digit(#[trigger] digits[k]),
        forall|k: int| 0 <= k < other_digits.len() ==> is_digit(#[trigger] other_digits[k]),
        place_value(digits) < place_value(other_digits),
    ensures
        i < j,
{
    let a = path_components(svgs@[i]);
    let b = path_components(svgs@[j]);
    lemma_numbered_page(a, dir, front, digits);
    lemma_numbered_page(b, other_dir, other_front, other_digits);
    lemma_place_value(digits);
    lemma_place_value(other_digits);
    assert(numbers_before(page_numbers(a), page_numbers(b)));
    law_page_order(listing@);
    assert(page_before(a, b));
    assert(i != j);
}

/// The number of a page is that at the end of its stem.
proof fn lemma_numbered_page(parts: Seq<PartView>, dir: Seq<PartView>, front: Seq<char>, digits: Seq<char>)
    requires
        parts == dir.push(PartView::Normal(encode_utf8(front + digits) + seq![46u8] + encode_utf8("svg"@))),
        forall|k: int| 0 <= k < front.len() ==> !is_digit(#[trigger] front[k]),
        digits.len() > 0,
        forall|k: int| 0 <= k < digits.len() ==> is_digit(#[trigger] digits[k]),
    ensures
        page_numbers(parts) == seq![digits_value(digits)],
{
    let text = front + digits;
    let stem = encode_utf8(text);
    lemma_svg_bytes();
    encode_utf8_valid_utf8(text);
    encode_utf8_decode_utf8(text);
    assert(stem.len() > 0) by {
        if stem.len() == 0 {
            assert(decode_utf8(stem).len() == 0);
        }
    }
    lemma_split(stem, encode_utf8("svg"@));
    assert(parts.last() == PartView::Normal(stem + seq![46u8] + encode_utf8("svg"@)));
    lemma_one_number(front, digits);
}

/// A render is good exactly if there is a page. All pages are handed on, and the log of a run that
/// was started is all of its standard output and then all of its error output.
pub proof fn law_render_result(outcome: Outcome, pages: Vec<Page>, output: RenderOutput, log: (bool, String))
    requires
        call_ensures(finish_render, (outcome, pages), output),
        call_ensures(run, (outcome,), log),
    ensures
        output.ok <==> pages@.len() > 0,
        output.pages@.len() == pages@.len(),
        forall|i: int| 0 <= i < pages@.len() ==> (#[trigger] output.pages@[i])@ == pages@[i]@,
        output.diagnostics@ == log.1@,
        outcome matches Outcome::Finished { success, stdout, stderr } ==> log.0 == success && log.1@ == lossy_utf8(stdout@)
            + lossy_utf8(stderr@),
        outcome matches Outcome::NotStarted { error } ==> !log.0 && log.1@ == "failed to run engraver: "@ + error@,
{
    assert(page_views(output.pages@).len() == page_views(pages@).len());
    assert forall|i: int| 0 <= i < pages@.len() implies (#[trigger] output.pages@[i])@ == pages@[i]@ by {
        assert(page_views(output.pages@)[i] == page_views(pages@)[i]);
    }
}

/// A page shows the whole rasterization if there is one, otherwise the whole SVG file; it is
/// addressed by the hash of what it shows, and as wide as the SVG file says. A rasterized page is
/// scaled by the zoom that the rasterizer is given.
pub proof fn law_page_content(
    svg: Vec<u8>,
    png: Option<Vec<u8>>,
    page: Page,
    image: &[u8],
    hash: String,
    file: &[u8],
    width: Option<Length>,
    options: Vec<String>,
)
    requires
        call_ensures(read_page, (svg, png), page),
        call_ensures(content_hash, (image,), hash),
        call_ensures(svg_width, (file,), width),
        call_ensures(rasterize_png, (), options),
        image@ == page.bytes@,
        file@ == svg@,
    ensures
        page.bytes@ == if png is Some {
            png->0@
        } else {
            svg@
        },
        page.uri@ == "bytes://"@ + hash@ + if png is Some {
            ".png"@
        } else {
            ".svg"@
        },
        length_view(page.width) == length_view(width),
        options@.len() == 5,
        png is Some ==> page.render_scale == place_value(options@[1]@),
        png is None ==> page.render_scale == 1,
        options@[0]@ == "-z"@ && options@[2]@ == "-b"@ && options@[3]@ == "white"@ && options@[4]@ == "-o"@,
{
    let list = crate::path::texts(options@);
    assert(list.len() == options@.len());
    assert(list[0] == options@[0]@ && list[1] == options@[1]@ && list[2] == options@[2]@ && list[3] == options@[3]@
        && list[4] == options@[4]@);
    lemma_decimal(RENDER_SCALE as nat);
    lemma_place_value(decimal(RENDER_SCALE as nat));
}

/// Whether a text is the name of an attribute: ASCII letters and hyphens.
pub open spec fn is_attr_name(s: Seq<char>) -> bool {
    &&& s.len() > 0
    &&& forall|i: int| 0 <= i < s.len() ==> 'a' <= #[trigger] s[i] <= 'z' || 'A' <= s[i] <= 'Z' || s[i] == '-'
}

/// Attributes as they are written: a blank, the name, an equals sign and the value in quotation
/// marks.
pub open spec fn written_attrs(attrs: Seq<(Seq<char>, Seq<char>)>) -> Seq<char>
    decreases attrs.len(),
{
    if attrs.len() == 0 {
        seq![]
    } else {
        seq![' '] + attrs[0].0 + seq!['=', '"'] + attrs[0].1 + seq!['"'] + written_attrs(attrs.skip(1))
    }
}

/// An attribute of another name is not the wanted one.
proof fn lemma_other_attr(s: Seq<char>, at: int, name: Seq<char>, wanted: Seq<char>)
    requires
        0 <= at,
        at + name.len() < s.len(),
        s.subrange(at, at + name.len()) == name,
        s[at + name.len()] == '=',
        is_attr_name(name),
        is_attr_name(wanted),
        name != wanted,
    ensures
        quoted_value(s.skip(at), wanted) is None,
{
    let r = s.skip(at);
    let n = name.len() as int;
    let m = wanted.len() as int;
    assert forall|i: int| 0 <= i < n implies r[i] == name[i] by {
        assert(s.subrange(at, at + n)[i] == s[at + i]);
    }
    assert(r[n] == '=');
    if has_prefix(r, wanted) {
        assert forall|i: int| 0 <= i < m implies r[i] == wanted[i] by {
            assert(r.take(m)[i] == r[i]);
        }
        if n < m {
            assert(wanted[n] == '=');
        } else if n == m {
            assert(name =~= wanted);
        } else {
            let behind = r.skip(m);
            assert(behind[0] == name[m]);
            assert(!white_space(name[m]));
            assert(trimmed_start(behind) == behind);
        }
    }
}

/// Nothing begins within a name.
proof fn lemma_name_passed(s: Seq<char>, wanted: Seq<char>, i: nat, end: nat)
    requires
        0 < i <= end < s.len(),
        forall|k: int|
            i - 1 <= k < end ==> 'a' <= #[trigger] s[k] <= 'z' || 'A' <= s[k] <= 'Z' || s[k] == '-',
        s[end as int] == '=',
        end + 1 < s.len(),
        s[end as int + 1] == '"',
    ensures
        attr_from(s, wanted, i, None) == attr_from(s, wanted, end + 2, Some('"')),
    decreases end - i,
{
    let before = s[i - 1];
    assert('a' <= before <= 'z' || 'A' <= before <= 'Z' || before == '-');
    if i < end {
        let c = s[i as int];
        assert('a' <= c <= 'z' || 'A' <= c <= 'Z' || c == '-');
        lemma_name_passed(s, wanted, i + 1, end);
    } else {
        assert(s[end as int] == '=');
        assert(attr_from(s, wanted, end, None) == attr_from(s, wanted, end + 1, None));
        assert(attr_from(s, wanted, end + 1, None) == attr_from(s, wanted, end + 2, Some('"')));
    }
}

/// Nothing begins within quotation marks.
proof fn lemma_value_passed(s: Seq<char>, wanted: Seq<char>, i: nat, end: nat)
    requires
        i <= end < s.len(),
        forall|k: int| i <= k < end ==> #[trigger] s[k] != '"',
        s[end as int] == '"',
    ensures
        attr_from(s, wanted, i, Some('"')) == attr_from(s, wanted, end + 1, None),
    decreases end - i,
{
    if i < end {
        assert(s[i as int] != '"');
        lemma_value_passed(s, wanted, i + 1, end);
    }
}

/// Other attributes are passed over.
proof fn lemma_attrs_passed(
    front: Seq<char>,
    attrs: Seq<(Seq<char>, Seq<char>)>,
    rest: Seq<char>,
    wanted: Seq<char>,
)
    requires
        is_attr_name(wanted),
        forall|i: int|
            0 <= i < attrs.len() ==> {
                &&& is_attr_name((#[trigger] attrs[i]).0)
                &&& attrs[i].0 != wanted
                &&& !attrs[i].1.contains('"')
            },
    ensures
        attr_from(front + written_attrs(attrs) + rest, wanted, front.len(), None) == attr_from(
            front + written_attrs(attrs) + rest,
            wanted,
            front.len() + written_attrs(attrs).len(),
            None,
        ),
    decreases attrs.len(),
{
    if attrs.len() > 0 {
        let s = front + written_attrs(attrs) + rest;
        let (name, value) = attrs[0];
        let more = attrs.skip(1);
        assert(is_attr_name(attrs[0].0));
        assert forall|i: int| 0 <= i < more.len() implies {
            &&& is_attr_name((#[trigger] more[i]).0)
            &&& more[i].0 != wanted
            &&& !more[i].1.contains('"')
        } by {
            assert(more[i] == attrs[i + 1]);
        }
        let piece = seq![' '] + name + seq!['=', '"'] + value + seq!['"'];
        let longer = front + piece;
        assert(s =~= longer + written_attrs(more) + rest);
        lemma_attrs_passed(longer, more, rest, wanted);
        let f = front.len();
        let at = f + 1;
        let eq = at + name.len();
        let open = eq + 2;
        let close = open + value.len();
        assert(s[f as int] == ' ');
        assert(!has_prefix(s.skip(f as int), wanted)) by {
            if has_prefix(s.skip(f as int), wanted) {
                assert(s.skip(f as int).take(wanted.len() as int)[0] == ' ');
                assert(wanted[0] == ' ');
            }
        }
        assert(attr_from(s, wanted, f, None) == attr_from(s, wanted, at, None));
        assert(s.subrange(at as int, eq as int) =~= name);
        assert(s[eq as int] == '=' && s[eq as int + 1] == '"');
        lemma_other_attr(s, at as int, name, wanted);
        assert(s[at as int] == name[0]);
        assert(attr_from(s, wanted, at, None) == attr_from(s, wanted, at + 1, None));
        assert forall|k: int| at <= k < eq implies 'a' <= #[trigger] s[k] <= 'z' || 'A' <= s[k] <= 'Z' || s[k] == '-' by {
            assert(s[k] == name[k - at]);
        }
        lemma_name_passed(s, wanted, at + 1, eq);
        assert forall|k: int| open <= k < close implies #[trigger] s[k] != '"' by {
            assert(s[k] == value[k - open]);
            assert(value.contains(value[k - open]));
        }
        assert(s[close as int] == '"');
        lemma_value_passed(s, wanted, open, close);
        assert(close + 1 == longer.len());
    }
}

/// The wanted attribute is found behind other ones.
proof fn lemma_attr_found(
    attrs: Seq<(Seq<char>, Seq<char>)>,
    wanted: Seq<char>,
    value: Seq<char>,
    rest: Seq<char>,
)
    requires
        is_attr_name(wanted),
        forall|i: int|
            0 <= i < attrs.len() ==> {
                &&& is_attr_name((#[trigger] attrs[i]).0)
                &&& attrs[i].0 != wanted
                &&& !attrs[i].1.contains('"')
            },
        !value.contains('"'),
    ensures
        attr_from(
            written_attrs(attrs) + seq![' '] + wanted + seq!['=', '"'] + value + seq!['"'] + rest,
            wanted,
            0,
            None,
        ) == Some(value),
{
    let none = Seq::<char>::empty();
    let w = written_attrs(attrs);
    let tail = seq![' '] + wanted + seq!['=', '"'] + value + seq!['"'] + rest;
    let s = w + seq![' '] + wanted + seq!['=', '"'] + value + seq!['"'] + rest;
    assert(s =~= none + w + tail);
    lemma_attrs_passed(none, attrs, tail, wanted);
    let f = w.len();
    assert(s[f as int] == ' ');
    assert(!has_prefix(s.skip(f as int), wanted)) by {
        if has_prefix(s.skip(f as int), wanted) {
            assert(s.skip(f as int).take(wanted.len() as int)[0] == ' ');
            assert(wanted[0] == ' ');
        }
    }
    assert(attr_from(s, wanted, f, None) == attr_from(s, wanted, f + 1, None));
    let r = s.skip(f as int + 1);
    let inner = value + seq!['"'] + rest;
    assert(r =~= wanted + (seq!['=', '"'] + inner));
    assert(r.take(wanted.len() as int) =~= wanted);
    assert(r.skip(wanted.len() as int) =~= seq!['=', '"'] + inner);
    let sign = seq!['=', '"'] + inner;
    assert(sign[0] == '=');
    assert(trimmed_start(sign) == sign);
    let opened = seq!['"'] + inner;
    assert(sign.skip(1) =~= opened);
    assert(opened[0] == '"');
    assert(trimmed_start(opened) == opened);
    assert(opened.skip(1) =~= inner);
    lemma_quote_found(value, rest, 0);
    assert(inner.take(value.len() as int) =~= value);
    assert(quoted_value(r, wanted) == Some(value));
    assert(s[f as int + 1] == wanted[0]);
}

/// A quoted value ends at the next quotation mark.
proof fn lemma_quote_found(value: Seq<char>, rest: Seq<char>, from: int)
    requires
        !value.contains('"'),
        0 <= from <= value.len(),
    ensures
        find_text(value + seq!['"'] + rest, seq!['"'], from) == Some(value.len() as int),
    decreases value.len() - from,
{
    let s = value + seq!['"'] + rest;
    if from < value.len() {
        lemma_quote_found(value, rest, from + 1);
        assert(value.contains(value[from]));
        assert(s.subrange(from, from + 1)[0] == value[from]);
    } else {
        assert(s.subrange(from, from + 1) =~= seq!['"']);
    }
}

/// Whether a text names a unit, or none.
pub open spec fn names_unit(text: Seq<char>, unit: Unit) -> bool {
    match unit {
        Unit::Mm => text == seq!['m', 'm'],
        Unit::Cm => text == seq!['c', 'm'],
        Unit::Pt => text == seq!['p', 't'],
        Unit::In => text == seq!['i', 'n'],
        Unit::Px => text == seq!['p', 'x'] || text.len() == 0,
    }
}

/// A numeral goes on to its end.
proof fn lemma_numeral(number: Seq<char>, rest: Seq<char>)
    requires
        forall|i: int| 0 <= i < number.len() ==> in_numeral(#[trigger] number[i]),
        rest.len() > 0 ==> !in_numeral(rest[0]),
    ensures
        numeral_len(number + rest) == number.len(),
    decreases number.len(),
{
    let s = number + rest;
    if number.len() > 0 {
        assert(in_numeral(number[0]));
        let more = number.drop_first();
        assert(s.drop_first() =~= more + rest);
        assert forall|i: int| 0 <= i < more.len() implies in_numeral(#[trigger] more[i]) by {
            assert(more[i] == number[i + 1]);
        }
        lemma_numeral(more, rest);
    } else {
        assert(s =~= rest);
    }
}

/// A length is read whole.
proof fn lemma_length(number: Seq<char>, unit_text: Seq<char>, unit: Unit)
    requires
        number.len() > 0,
        forall|i: int| 0 <= i < number.len() ==> in_numeral(#[trigger] number[i]),
        names_unit(unit_text, unit),
    ensures
        length_of(trimmed(number + unit_text)) == (LengthView { number, unit }),
{
    let none = Seq::<char>::empty();
    let s = number + unit_text;
    assert(in_numeral(number[0]) && in_numeral(number[number.len() - 1]));
    assert(s[0] == number[0]);
    assert(unit_text.len() > 0 ==> s.last() == unit_text.last());
    assert(unit_text.len() == 0 ==> s.last() == number.last());
    assert(bare(s));
    lemma_trimmed(none, s, none);
    assert(none + s + none =~= s);
    lemma_numeral(number, unit_text);
    assert(s.take(number.len() as int) =~= number);
    assert(s.skip(number.len() as int) =~= unit_text);
    assert(bare(unit_text));
    lemma_trimmed(none, unit_text, none);
    assert(none + unit_text + none =~= unit_text);
    reveal_strlit("mm");
    reveal_strlit("cm");
    reveal_strlit("pt");
    reveal_strlit("in");
    assert("mm"@ =~= seq!['m', 'm']);
    assert("cm"@ =~= seq!['c', 'm']);
    assert("pt"@ =~= seq!['p', 't']);
    assert("in"@ =~= seq!['i', 'n']);
    if unit == Unit::Px && unit_text.len() > 0 {
        assert(unit_text[1] == 'x');
    }
    if unit == Unit::Cm {
        assert(unit_text[0] == 'c');
    }
    if unit == Unit::Pt {
        assert(unit_text[0] == 'p');
    }
    if unit == Unit::In {
        assert(unit_text[0] == 'i');
    }
}

/// The root is found behind text without tags.
proof fn lemma_root_found(front: Seq<char>, tag: Seq<char>, i: nat)
    requires
        !front.contains('<'),
        i <= front.len(),
        tag.len() > 0,
        white_space(tag[0]) || tag[0] == '>',
    ensures
        root_from(front + "<svg"@ + tag, i, false) == Some(tag),
    decreases front.len() - i,
{
    reveal_strlit("<svg");
    let s = front + "<svg"@ + tag;
    let here = s.skip(i as int);
    if i < front.len() {
        lemma_root_found(front, tag, i + 1);
        assert(front.contains(front[i as int]));
        assert(s[i as int] == front[i as int]);
        if has_prefix(here, seq!['<', '!', '-', '-']) {
            assert(here.take(4)[0] == s[i as int]);
        }
    } else {
        assert(s[i as int] == '<');
        if has_prefix(here, seq!['<', '!', '-', '-']) {
            assert(here.take(4)[1] == s[i as int + 1]);
        }
        let name = s.skip(i as int + 1);
        let svg = seq!['s', 'v', 'g'];
        assert(name =~= svg + tag);
        reveal_with_fuel(name_len, 4);
        assert(name.skip(1).skip(1).skip(1) =~= tag);
        assert(name_len(tag) == 0);
        assert(name.skip(1)[0] == 'v' && name.skip(1).skip(1)[0] == 'g');
        assert(name_len(name) == 3);
        assert(name.take(3) =~= svg);
        assert(svg.skip(0) =~= svg);
        assert(s.skip(i as int + 4) =~= tag);
    }
}

/// The width of an SVG file is that of its root element, whatever other attributes stand before
/// and whatever follows: the whole numeral, and the unit.
pub proof fn law_width_of_root(
    svg: &[u8],
    width: Option<Length>,
    front: Seq<char>,
    attrs: Seq<(Seq<char>, Seq<char>)>,
    number: Seq<char>,
    unit_text: Seq<char>,
    unit: Unit,
    rest: Seq<char>,
)
    requires
        call_ensures(svg_width, (svg,), width),
        svg@.len() <= 2048,
        !front.contains('<'),
        forall|i: int|
            0 <= i < attrs.len() ==> {
                &&& is_attr_name((#[trigger] attrs[i]).0)
                &&& attrs[i].0 != "width"@
                &&& !attrs[i].1.contains('"')
            },
        number.len() > 0,
        forall|i: int| 0 <= i < number.len() ==> in_numeral(#[trigger] number[i]),
        names_unit(unit_text, unit),
    ensures
        lossy_utf8(svg@) == front + "<svg"@ + written_attrs(attrs) + " width=\""@ + number + unit_text + "\""@ + rest
            ==> width is Some && width->0.number@ == number && width->0.unit == unit,
{
    if lossy_utf8(svg@) == front + "<svg"@ + written_attrs(attrs) + " width=\""@ + number + unit_text + "\""@ + rest {
        reveal_strlit("width");
        reveal_strlit(" width=\"");
        reveal_strlit("\"");
        let name = "width"@;
        let value = number + unit_text;
        let tag = written_attrs(attrs) + seq![' '] + name + seq!['=', '"'] + value + seq!['"'] + rest;
        assert(lossy_utf8(svg@) =~= front + "<svg"@ + tag);
        assert(tag[0] == ' ') by {
            if attrs.len() > 0 {
                assert(written_attrs(attrs)[0] == ' ');
            }
        }
        assert(svg@.take(svg@.len() as int) =~= svg@);
        lemma_root_found(front, tag, 0);
        assert(!value.contains('"')) by {
            if value.contains('"') {
                let i = value.index_of('"');
                if i < number.len() {
                    assert(in_numeral(number[i]));
                } else {
                    assert(unit_text[i - number.len()] == '"');
                }
            }
        }
        lemma_attr_found(attrs, name, value, rest);
        lemma_length(number, unit_text, unit);
    }
}

/// Only the beginning of an SVG file matters to its width.
pub proof fn law_width_from_head(a: &[u8], b: &[u8], wa: Option<Length>, wb: Option<Length>)
    requires
        call_ensures(svg_width, (a,), wa),
        call_ensures(svg_width, (b,), wb),
        a@.len() >= 2048,
        b@.len() >= 2048,
        a@.take(2048) == b@.take(2048),
    ensures
        length_view(wa) == length_view(wb),
{
}

/// Numbers in texts one behind the other are those of each, unless a row of digits runs across.
proof fn lemma_numbers_split(x: Seq<char>, y: Seq<char>)
    requires
        x.len() == 0 || !is_digit(x.last()) || (y.len() > 0 && !is_digit(y[0])) || y.len() == 0,
    ensures
        numbers_in(x + y) == numbers_in(x) + numbers_in(y),
        y.len() > 0 && is_digit(y.last()) ==> numbers_in(y).len() > 0,
    decreases y.len(),
{
    let s = x + y;
    if y.len() == 0 {
        assert(s =~= x);
        assert(numbers_in(x) + numbers_in(y) =~= numbers_in(x));
    } else {
        let init = y.drop_last();
        assert(s.drop_last() =~= x + init);
        assert(s.last() == y.last());
        if init.len() > 0 {
            assert(init[0] == y[0]);
        }
        lemma_numbers_split(x, init);
        let a = numbers_in(x);
        let b = numbers_in(init);
        if y.len() > 1 {
            assert(s[s.len() - 2] == y[y.len() - 2]);
            assert(init.last() == y[y.len() - 2]);
            if is_digit(y.last()) && is_digit(y[y.len() - 2]) {
                assert((a + b).last() == b.last());
                assert((a + b).drop_last() =~= a + b.drop_last());
            }
        } else {
            assert(init =~= seq![]);
            if x.len() > 0 {
                assert(s[s.len() - 2] == x.last());
            }
        }
        assert(numbers_in(s) =~= a + numbers_in(y));
    }
}

/// Rows of numbers are ordered by the first difference.
proof fn lemma_numbers_common(common: Seq<nat>, m: nat, n: nat, x: Seq<nat>, y: Seq<nat>)
    requires
        m < n,
    ensures
        numbers_before(common + (seq![m] + x), common + (seq![n] + y)),
    decreases common.len(),
{
    let a = common + (seq![m] + x);
    let b = common + (seq![n] + y);
    if common.len() > 0 {
        lemma_numbers_common(common.drop_first(), m, n, x, y);
        assert(a.drop_first() =~= common.drop_first() + (seq![m] + x));
        assert(b.drop_first() =~= common.drop_first() + (seq![n] + y));
        assert(a[0] == b[0]);
    } else {
        assert(a[0] == m && b[0] == n);
    }
}

/// The number that stands in a stem between other text is one of its numbers.
proof fn lemma_number_within(front: Seq<char>, digits: Seq<char>, rest: Seq<char>)
    requires
        front.len() > 0 ==> !is_digit(front.last()),
        digits.len() > 0,
        forall|k: int| 0 <= k < digits.len() ==> is_digit(#[trigger] digits[k]),
        rest.len() > 0 ==> !is_digit(rest[0]),
    ensures
        numbers_in(front + (digits + rest)) == numbers_in(front) + (seq![digits_value(digits)] + numbers_in(rest)),
{
    let none = Seq::<char>::empty();
    lemma_one_number(none, digits);
    assert(none + digits =~= digits);
    lemma_numbers_split(digits, rest);
    lemma_numbers_split(front, digits + rest);
}

/// Pages are shown in the order of their numbers wherever the numbers stand in their stems: of two
/// products whose stems agree up to a number, the one with the smaller number is shown first,
/// whatever follows.
pub proof fn law_pages_by_first_difference(
    listing: Vec<PathBuf>,
    svgs: Vec<PathBuf>,
    i: int,
    j: int,
    dir: Seq<PartView>,
    front: Seq<char>,
    digits: Seq<char>,
    rest: Seq<char>,
    other_dir: Seq<PartView>,
    other_digits: Seq<char>,
    other_rest: Seq<char>,
)
    requires
        call_ensures(collect_svgs, (None, listing), svgs),
        0 <= i < svgs@.len(),
        0 <= j < svgs@.len(),
        path_components(svgs@[i]) == dir.push(
            PartView::Normal(encode_utf8(front + (digits + rest)) + seq![46u8] + encode_utf8("svg"@)),
        ),
        path_components(svgs@[j]) == other_dir.push(
            PartView::Normal(encode_utf8(front + (other_digits + other_rest)) + seq![46u8] + encode_utf8("svg"@)),
        ),
        front.len() > 0 ==> !is_digit(front.last()),
        digits.len() > 0,
        other_digits.len() > 0,
        forall|k: int| 0 <= k < digits.len() ==> is_digit(#[trigger] digits[k]),
        forall|k: int| 0 <= k < other_digits.len() ==> is_digit(#[trigger] other_digits[k]),
        rest.len() > 0 ==> !is_digit(rest[0]),
        other_rest.len() > 0 ==> !is_digit(other_rest[0]),
        place_value(digits) < place_value(other_digits),
    ensures
        i < j,
{
    let a = path_components(svgs@[i]);
    let b = path_components(svgs@[j]);
    lemma_stem_numbers(a, dir, front + (digits + rest));
    lemma_stem_numbers(b, other_dir, front + (other_digits + other_rest));
    lemma_number_within(front, digits, rest);
    lemma_number_within(front, other_digits, other_rest);
    lemma_place_value(digits);
    lemma_place_value(other_digits);
    lemma_numbers_common(
        numbers_in(front),
        digits_value(digits),
        digits_value(other_digits),
        numbers_in(rest),
        numbers_in(other_rest),
    );
    law_page_order(listing@);
    assert(page_before(a, b));
    lemma_numbers_irreflexive(page_numbers(a));
    assert(i != j);
}

/// A row of numbers does not come before itself.
proof fn lemma_numbers_irreflexive(a: Seq<nat>)
    ensures
        !numbers_before(a, a),
    decreases a.len(),
{
    if a.len() > 0 {
        lemma_numbers_irreflexive(a.drop_first());
    }
}

/// The numbers of a page are those of its stem.
proof fn lemma_stem_numbers(parts: Seq<PartView>, dir: Seq<PartView>, text: Seq<char>)
    requires
        parts == dir.push(PartView::Normal(encode_utf8(text) + seq![46u8] + encode_utf8("svg"@))),
        text.len() > 0,
    ensures
        page_numbers(parts) == numbers_in(text),
{
    let stem = encode_utf8(text);
    lemma_svg_bytes();
    encode_utf8_valid_utf8(text);
    encode_utf8_decode_utf8(text);
    assert(stem.len() > 0) by {
        if stem.len() == 0 {
            assert(decode_utf8(stem).len() == 0);
        }
    }
    lemma_split(stem, encode_utf8("svg"@));
    assert(parts.last() == PartView::Normal(stem + seq![46u8] + encode_utf8("svg"@)));
}

/// A source that could not be written is no good render: it has no pages, and its log is the whole
/// reason.
pub proof fn law_unwritten_source(error: &str, output: RenderOutput)
    requires
        call_ensures(write_failed, (error,), output),
    ensures
        !output.ok,
        output.pages@.len() == 0,
        output.diagnostics@ == "cannot write temp source: "@ + error@,
{
    assert(page_views(output.pages@).len() == output.pages@.len());
}

/// The search for the root depends on what follows only.
proof fn lemma_root_shift(a: Seq<char>, s: Seq<char>, i: nat, comment: bool)
    ensures
        root_from(a + s, a.len() + i, comment) == root_from(s, i, comment),
    decreases s.len() - i,
{
    let all = a + s;
    let k = a.len() + i;
    if i < s.len() {
        assert(all.skip(k as int) =~= s.skip(i as int));
        assert(all[k as int] == s[i as int]);
        if comment {
            if has_prefix(s.skip(i as int), seq!['-', '-', '>']) {
                lemma_root_shift(a, s, i + 3, false);
            } else {
                lemma_root_shift(a, s, i + 1, true);
            }
        } else if has_prefix(s.skip(i as int), seq!['<', '!', '-', '-']) {
            lemma_root_shift(a, s, i + 4, true);
        } else {
            assert(all.skip(k as int + 1) =~= s.skip(i as int + 1));
            let n = name_len(s.skip(i as int + 1));
            lemma_name_len(s.skip(i as int + 1));
            assert(all.skip(k as int + 1 + n) =~= s.skip(i as int + 1 + n));
            lemma_root_shift(a, s, i + 1, false);
        }
    }
}

/// A name is no longer than the text that it begins.
proof fn lemma_name_len(s: Seq<char>)
    ensures
        name_len(s) <= s.len(),
    decreases s.len(),
{
    if s.len() > 0 && !ends_name(s[0]) {
        lemma_name_len(s.skip(1));
    }
}

/// Text without tags is passed over.
proof fn lemma_text_passed(s: Seq<char>, i: nat, end: nat)
    requires
        i <= end <= s.len(),
        forall|k: int| i <= k < end ==> #[trigger] s[k] != '<',
    ensures
        root_from(s, i, false) == root_from(s, end, false),
    decreases end - i,
{
    if i < end {
        assert(s[i as int] != '<');
        if has_prefix(s.skip(i as int), seq!['<', '!', '-', '-']) {
            assert(s.skip(i as int).take(4)[0] == s[i as int]);
        }
        lemma_text_passed(s, i + 1, end);
    }
}

/// A name goes on to what ends it.
proof fn lemma_name_read(name: Seq<char>, rest: Seq<char>)
    requires
        forall|i: int| 0 <= i < name.len() ==> !ends_name(#[trigger] name[i]),
        rest.len() > 0 ==> ends_name(rest[0]),
    ensures
        name_len(name + rest) == name.len(),
    decreases name.len(),
{
    let s = name + rest;
    if name.len() > 0 {
        assert(!ends_name(name[0]));
        let more = name.skip(1);
        assert(s.skip(1) =~= more + rest);
        assert forall|i: int| 0 <= i < more.len() implies !ends_name(#[trigger] more[i]) by {
            assert(more[i] == name[i + 1]);
        }
        lemma_name_read(more, rest);
    } else {
        assert(s =~= rest);
    }
}

/// Nothing is found within a comment.
proof fn lemma_comment_passed(s: Seq<char>, i: nat, end: nat)
    requires
        i <= end,
        end + 3 <= s.len(),
        forall|k: int| i <= k < end ==> #[trigger] s[k] != '-',
        s[end as int] == '-' && s[end as int + 1] == '-' && s[end as int + 2] == '>',
    ensures
        root_from(s, i, true) == root_from(s, end + 3, false),
    decreases end - i,
{
    let here = s.skip(i as int);
    if i < end {
        assert(s[i as int] != '-');
        if has_prefix(here, seq!['-', '-', '>']) {
            assert(here.take(3)[0] == s[i as int]);
        }
        lemma_comment_passed(s, i + 1, end);
    } else {
        assert(here.take(3) =~= seq!['-', '-', '>']);
    }
}

/// What stands before the root element does not matter: text, the XML declaration, the document
/// type, and comments, however long.
pub proof fn law_prolog_ignored(
    s: &[char],
    tag: Option<&[char]>,
    t: &[char],
    again: Option<&[char]>,
    text: Seq<char>,
    rest: Seq<char>,
)
    requires
        call_ensures(find_root, (s,), tag),
        call_ensures(find_root, (t,), again),
        t@ == rest,
        ({
            ||| s@ == text + rest && !text.contains('<')
            ||| s@ == "<?xml "@ + text + rest && !text.contains('<')
            ||| s@ == "<!DOCTYPE "@ + text + rest && !text.contains('<')
            ||| s@ == "<!--"@ + text + "-->"@ + rest && !text.contains('-')
        }),
    ensures
        tag is Some <==> again is Some,
        tag is Some ==> tag->0@ == again->0@,
{
    reveal_strlit("<?xml ");
    reveal_strlit("<!DOCTYPE ");
    reveal_strlit("<!--");
    reveal_strlit("-->");
    if s@ == text + rest && !text.contains('<') {
        lemma_markup_passed(seq![], text, rest);
        assert(Seq::<char>::empty() + text + rest =~= text + rest);
    } else if s@ == "<?xml "@ + text + rest && !text.contains('<') {
        assert("<?xml "@ =~= seq!['<', '?', 'x', 'm', 'l', ' ']);
        assert(!(seq![' '] + text).contains('<')) by {
            if (seq![' '] + text).contains('<') {
                let i = (seq![' '] + text).index_of('<');
                assert(text[i - 1] == '<');
            }
        }
        lemma_markup_passed(seq!['?', 'x', 'm', 'l'], seq![' '] + text, rest);
        assert(seq!['<'] + seq!['?', 'x', 'm', 'l'] + (seq![' '] + text) + rest =~= s@);
    } else if s@ == "<!DOCTYPE "@ + text + rest && !text.contains('<') {
        let name = seq!['!', 'D', 'O', 'C', 'T', 'Y', 'P', 'E'];
        assert("<!DOCTYPE "@ =~= seq!['<'] + name + seq![' ']);
        assert(!(seq![' '] + text).contains('<')) by {
            if (seq![' '] + text).contains('<') {
                let i = (seq![' '] + text).index_of('<');
                assert(text[i - 1] == '<');
            }
        }
        lemma_markup_passed(name, seq![' '] + text, rest);
        assert(seq!['<'] + name + (seq![' '] + text) + rest =~= s@);
    } else {
        let open = seq!['<', '!', '-', '-'];
        let piece = open + text + seq!['-', '-', '>'];
        assert(s@ =~= piece + rest);
        assert(s@.skip(0).take(4) =~= open);
        let end = 4 + text.len();
        assert forall|k: int| 4 <= k < end implies #[trigger] s@[k] != '-' by {
            assert(s@[k] == text[k - 4]);
            assert(text.contains(text[k - 4]));
        }
        lemma_comment_passed(s@, 4, end);
        lemma_root_shift(piece, rest, 0, false);
    }
}

/// Markup that names no `svg` element is passed over; without a name it is plain text.
proof fn lemma_markup_passed(name: Seq<char>, text: Seq<char>, rest: Seq<char>)
    requires
        name.len() == 0 || (name == seq!['?', 'x', 'm', 'l'] || name == seq!['!', 'D', 'O', 'C', 'T', 'Y', 'P', 'E']),
    ensures
        name.len() == 0 && !text.contains('<') ==> root_tag(name + text + rest) == root_tag(rest),
        name.len() > 0 && !text.contains('<') && text.len() > 0 && text[0] == ' ' ==> root_tag(
            seq!['<'] + name + text + rest,
        ) == root_tag(rest),
{
    if name.len() == 0 && !text.contains('<') {
        let s = text + rest;
        assert(name + text + rest =~= s);
        assert forall|k: int| 0 <= k < text.len() implies #[trigger] s[k] != '<' by {
            assert(s[k] == text[k]);
            assert(text.contains(text[k]));
        }
        lemma_text_passed(s, 0, text.len());
        lemma_root_shift(text, rest, 0, false);
    } else if name.len() > 0 && !text.contains('<') && text.len() > 0 && text[0] == ' ' {
        let piece = seq!['<'] + name + text;
        let s = piece + rest;
        let here = s.skip(1);
        assert(s[0] == '<' && s[1] == name[0] && s[2] == name[1]);
        if has_prefix(s.skip(0), seq!['<', '!', '-', '-']) {
            assert(s.skip(0).take(4)[2] == s[2]);
        }
        assert(here =~= name + (text + rest));
        assert((text + rest)[0] == ' ');
        lemma_name_read(name, text + rest);
        assert(here.take(name.len() as int) =~= name);
        assert(name.skip(name.len() as int - 3)[2] == name[name.len() as int - 1]);
        assert(!is_svg_name(name));
        assert forall|k: int| 1 <= k < piece.len() implies #[trigger] s[k] != '<' by {
            if k <= name.len() {
                assert(s[k] == name[k - 1]);
            } else {
                assert(s[k] == text[k - 1 - name.len()]);
                assert(text.contains(text[k - 1 - name.len()]));
            }
        }
        lemma_text_passed(s, 1, piece.len());
        lemma_root_shift(piece, rest, 0, false);
    }
}

/// The root element may stand in a namespace: its prefix does not matter.
pub proof fn law_namespace_ignored(s: &[char], tag: Option<&[char]>, prefix: Seq<char>, rest: Seq<char>)
    requires
        call_ensures(find_root, (s,), tag),
        s@ == seq!['<'] + prefix + seq!['s', 'v', 'g'] + rest,
        prefix.len() == 0 || prefix.len() > 1 && prefix.last() == ':',
        forall|i: int| 0 <= i < prefix.len() ==> !ends_name(#[trigger] prefix[i]) && prefix[i] != '!',
        rest.len() > 0 ==> ends_name(rest[0]),
    ensures
        tag is Some,
        tag->0@ == rest,
{
    let name = prefix + seq!['s', 'v', 'g'];
    let n = name.len() as int;
    let here = s@.skip(1);
    assert(here =~= name + rest);
    assert forall|i: int| 0 <= i < name.len() implies !ends_name(#[trigger] name[i]) by {
        if i < prefix.len() {
            assert(name[i] == prefix[i]);
        }
    }
    lemma_name_read(name, rest);
    assert(here.take(n) =~= name);
    assert(name.skip(n - 3) =~= seq!['s', 'v', 'g']);
    assert(prefix.len() > 0 ==> name[n - 4] == prefix.last());
    assert(s@.skip(0) =~= s@);
    if has_prefix(s@.skip(0), seq!['<', '!', '-', '-']) {
        assert(s@.take(4)[1] == s@[1]);
        assert(s@[1] == name[0]);
    }
    assert(s@.skip(1 + n) =~= rest);
}

} // verus!
