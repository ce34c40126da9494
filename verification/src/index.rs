//! The index of a music folder: titles and tunes are found in the sources themselves,
//! without rendering.

use std::path::PathBuf;

use vstd::prelude::*;
use vstd::utf8::{decode_utf8, valid_utf8};

use crate::lilypond::header_title;
use crate::lilypond::lilypond_title;
use crate::model::format_of;
use crate::model::Format;
use crate::order::sort_by_keys;
use crate::order::{
    comes_first, key_before, key_views, law_sorted, law_stable_order_unique, lemma_key_decided, sorted_by, sorting,
};
use crate::path::{components, name_of, sort_key, Part};
use crate::path::{last_name, part_views, path_components, path_key, PartView};
use crate::text::{chars_of, from_utf8, from_utf8_lossy, lines, parse_u32, push_decimal, string_of, strip_pair, trim, trim_start};
use crate::text::{
    all_white, bare, decimal, ended_lines, has_prefix, is_digit, is_line, lemma_decimal, lemma_line_feed, lemma_lines_read,
    lemma_place_value, lemma_trimmed, lemma_trimmed_start, line_feed, lossy_utf8, place_value, slices,
    text_lines, trimmed, trimmed_end, trimmed_start, u32_of, unsigned_part, white_space, without_return,
};

verus! {

/// One browsable source file.
pub struct FileEntry {
    pub path: PathBuf,
    pub format: Format,
    /// Display title (file name, or `\header` title for LilyPond).
    pub title: String,
    /// ABC files are multi-tune containers; one entry per `X:` tune. Empty for LilyPond.
    pub tunes: Vec<Tune>,
}

/// What a [`FileEntry`] holds.
pub struct EntryView {
    pub path: PathBuf,
    pub format: Format,
    pub title: Seq<char>,
    pub tunes: Seq<TuneView>,
}

impl View for FileEntry {
    type V = EntryView;

    open spec fn view(&self) -> EntryView {
        EntryView {
            path: self.path,
            format: self.format,
            title: self.title@,
            tunes: tune_views(self.tunes@),
        }
    }
}

/// What a list of entries holds.
pub open spec fn entry_views(entries: Seq<FileEntry>) -> Seq<EntryView> {
    entries.map_values(|e: FileEntry| e@)
}

/// A file met in a music folder. The content of a LilyPond or ABC file is what could be read
/// of it; that of any other file is not looked at.
pub struct SourceFile {
    pub path: PathBuf,
    pub content: Vec<u8>,
}

/// One tune of an ABC file.
pub struct Tune {
    /// The ABC `X:` reference number (used for `abcm2ps -e` selection).
    pub number: u32,
    pub title: String,
}

/// What a [`Tune`] holds.
pub struct TuneView {
    pub number: u32,
    pub title: Seq<char>,
}

impl View for Tune {
    type V = TuneView;

    open spec fn view(&self) -> TuneView {
        TuneView { number: self.number, title: self.title@ }
    }
}

/// What a list of tunes holds.
pub open spec fn tune_views(tunes: Seq<Tune>) -> Seq<TuneView> {
    tunes.map_values(|t: Tune| t@)
}

/// The trimmed value of a line that, leading white space aside, begins with the letter of an
/// ABC field and a colon.
pub open spec fn field(line: Seq<char>, letter: char) -> Option<Seq<char>> {
    let l = trimmed_start(line);
    if has_prefix(l, seq![letter, ':']) {
        Some(trimmed(l.skip(2)))
    } else {
        None
    }
}

/// A line that begins a tune.
pub open spec fn is_header(line: Seq<char>) -> bool {
    field(line, 'X') is Some
}

/// Which of the first `n` lines begin a tune.
pub open spec fn headers(list: Seq<Seq<char>>, n: nat) -> Seq<int>
    decreases n,
{
    if n == 0 {
        seq![]
    } else if is_header(list[n - 1]) {
        headers(list, (n - 1) as nat).push(n - 1)
    } else {
        headers(list, (n - 1) as nat)
    }
}

/// The value of the first `T:` line among the lines `from..to`, if there is one.
pub open spec fn first_title(list: Seq<Seq<char>>, from: int, to: int) -> Option<Seq<char>>
    decreases to - from,
{
    if to <= from {
        None
    } else if first_title(list, from, to - 1) is Some {
        first_title(list, from, to - 1)
    } else {
        field(list[to - 1], 'T')
    }
}

/// The title that the lines `from..to` give: the value of the first `T:` line; empty if there
/// is none.
pub open spec fn section_title(list: Seq<Seq<char>>, from: int, to: int) -> Seq<char> {
    match first_title(list, from, to) {
        Some(title) => title,
        None => seq![],
    }
}

/// The number of a tune whose header gives none: its place in the file, counted from one
/// (in 32-bit arithmetic).
pub open spec fn place_number(place: nat) -> u32 {
    ((place + 1) % 0x1_0000_0000) as u32
}

/// The number of the tune at a place, which its header line gives if it can be read.
pub open spec fn tune_number(header: Seq<char>, place: nat) -> u32 {
    match u32_of(field(header, 'X')->0) {
        Some(number) => number,
        None => place_number(place),
    }
}

/// The title that stands for a tune without one.
pub open spec fn placeholder(number: u32) -> Seq<char> {
    "Tune "@ + decimal(number as nat)
}

/// Where the lines of the tune at a place end.
pub open spec fn section_end(list: Seq<Seq<char>>, place: int) -> int {
    let heads = headers(list, list.len());
    if place + 1 < heads.len() {
        heads[place + 1]
    } else {
        list.len() as int
    }
}

/// The tune at a place: its number is in the header, its title is that of the first `T:` line
/// up to the next header. A placeholder stands for a title that is empty or absent.
pub open spec fn abc_tune(list: Seq<Seq<char>>, place: int) -> TuneView {
    let head = headers(list, list.len())[place];
    let number = tune_number(list[head], place as nat);
    let title = section_title(list, head + 1, section_end(list, place));
    TuneView { number, title: if title.len() > 0 { title } else { placeholder(number) } }
}

/// The tunes of an ABC text, one for each `X:` line.
pub open spec fn abc_tunes(content: Seq<char>) -> Seq<TuneView> {
    let list = text_lines(content);
    Seq::new(headers(list, list.len()).len(), |place: int| abc_tune(list, place))
}

/// Headers stand in rising order among the lines looked at.
proof fn lemma_headers(list: Seq<Seq<char>>, n: nat)
    ensures
        forall|k: int| 0 <= k < headers(list, n).len() ==> 0 <= #[trigger] headers(list, n)[k] < n,
        forall|j: int, k: int|
            0 <= j < k < headers(list, n).len() ==> headers(list, n)[j] < headers(list, n)[k],
    decreases n,
{
    if n > 0 {
        let before = headers(list, (n - 1) as nat);
        lemma_headers(list, (n - 1) as nat);
        assert(headers(list, n) == before || headers(list, n) == before.push(n - 1));
        assert forall|k: int| 0 <= k < headers(list, n).len() implies 0 <= #[trigger] headers(list, n)[k] < n by {
            if k < before.len() {
                assert(headers(list, n)[k] == before[k]);
            }
        }
        assert forall|j: int, k: int| 0 <= j < k < headers(list, n).len() implies
            headers(list, n)[j] < headers(list, n)[k] by {
            assert(headers(list, n)[j] == before[j]);
            if k < before.len() {
                assert(headers(list, n)[k] == before[k]);
            }
        }
    }
}

/// Every tune has a title, its own or a placeholder.
pub proof fn law_tunes_have_titles(content: Seq<char>, place: int)
    requires
        0 <= place < abc_tunes(content).len(),
    ensures
        abc_tunes(content)[place].title.len() > 0,
{
    let list = text_lines(content);
    let number = abc_tune(list, place).number;
    reveal_strlit("Tune ");
    assert(placeholder(number).len() >= "Tune "@.len());
}

/// The tunes of a file are numbered as their headers say; a header without a readable number
/// gives the tune its place.
pub proof fn law_tune_numbers(content: Seq<char>, place: int)
    requires
        0 <= place < abc_tunes(content).len(),
    ensures
        ({
            let list = text_lines(content);
            let head = headers(list, list.len())[place];
            &&& 0 <= head < list.len()
            &&& is_header(list[head])
            &&& abc_tunes(content)[place].number == match u32_of(field(list[head], 'X')->0) {
                Some(number) => number,
                None => place_number(place as nat),
            }
        }),
{
    let list = text_lines(content);
    lemma_headers(list, list.len());
    lemma_header_lines(list, list.len());
}

/// What counts as a header is a header line.
proof fn lemma_header_lines(list: Seq<Seq<char>>, n: nat)
    ensures
        forall|k: int| 0 <= k < headers(list, n).len() ==> is_header(list[#[trigger] headers(list, n)[k]]),
    decreases n,
{
    if n > 0 {
        let before = headers(list, (n - 1) as nat);
        lemma_header_lines(list, (n - 1) as nat);
        assert forall|k: int| 0 <= k < headers(list, n).len() implies is_header(
            list[#[trigger] headers(list, n)[k]],
        ) by {
            if k < before.len() {
                assert(headers(list, n)[k] == before[k]);
            }
        }
    }
}

/// The tunes of a list of lines before they are numbered and titled: the header line of each,
/// and the value of its first `T:` line.
pub open spec fn sections(list: Seq<Seq<char>>) -> Seq<(Seq<char>, Option<Seq<char>>)>
    decreases list.len(),
{
    if list.len() == 0 {
        seq![]
    } else {
        let before = sections(list.drop_last());
        let line = list.last();
        if is_header(line) {
            before.push((line, None))
        } else if before.len() > 0 && before.last().1 is None {
            before.drop_last().push((before.last().0, field(line, 'T')))
        } else {
            before
        }
    }
}

/// The tune that a section makes at a place.
pub open spec fn section_tune(section: (Seq<char>, Option<Seq<char>>), place: nat) -> TuneView {
    let number = tune_number(section.0, place);
    let title = match section.1 {
        Some(t) => t,
        None => seq![],
    };
    TuneView { number, title: if title.len() > 0 { title } else { placeholder(number) } }
}

/// Sections and headers agree.
proof fn lemma_sections(list: Seq<Seq<char>>, n: nat)
    requires
        n <= list.len(),
    ensures
        sections(list.take(n as int)).len() == headers(list, n).len(),
        forall|k: int|
            #![trigger sections(list.take(n as int))[k]]
            0 <= k < headers(list, n).len() ==> {
                let heads = headers(list, n);
                let end = if k + 1 < heads.len() { heads[k + 1] } else { n as int };
                sections(list.take(n as int))[k] == (list[heads[k]], first_title(list, heads[k] + 1, end))
            },
    decreases n,
{
    let t = list.take(n as int);
    let heads = headers(list, n);
    let all = sections(t);
    if n > 0 {
        let m = (n - 1) as nat;
        lemma_sections(list, m);
        lemma_headers(list, m);
        lemma_headers(list, n);
        assert(t.drop_last() =~= list.take(m as int));
        assert(t.last() == list[m as int]);
        let old_heads = headers(list, m);
        let before = sections(list.take(m as int));
        assert forall|k: int| #![trigger all[k]] 0 <= k < heads.len() implies {
            let end = if k + 1 < heads.len() { heads[k + 1] } else { n as int };
            all[k] == (list[heads[k]], first_title(list, heads[k] + 1, end))
        } by {
            if k < before.len() {
                assert(heads[k] == old_heads[k]);
                assert(before[k].0 == list[old_heads[k]]);
                if k + 1 < old_heads.len() {
                    assert(heads[k + 1] == old_heads[k + 1]);
                    assert(all[k] == before[k]);
                } else {
                    assert(before[k].1 == first_title(list, heads[k] + 1, m as int));
                }
            }
        }
    }
}

/// The tunes of a text are those of its sections.
proof fn lemma_tunes_of_sections(content: Seq<char>)
    ensures
        abc_tunes(content) == Seq::new(
            sections(text_lines(content)).len(),
            |place: int| section_tune(sections(text_lines(content))[place], place as nat),
        ),
{
    let list = text_lines(content);
    lemma_sections(list, list.len());
    assert(list.take(list.len() as int) =~= list);
    let all = sections(list);
    assert forall|place: int| 0 <= place < all.len() implies abc_tunes(content)[place] == section_tune(
        #[trigger] all[place],
        place as nat,
    ) by {
        assert(all[place].1 == first_title(list, headers(list, list.len())[place] + 1, section_end(list, place)));
    }
    assert(abc_tunes(content) =~= Seq::new(all.len(), |place: int| section_tune(all[place], place as nat)));
}

/// The lines of a text that are `X:` or `T:` fields.
pub open spec fn field_lines(list: Seq<Seq<char>>) -> Seq<Seq<char>>
    decreases list.len(),
{
    if list.len() == 0 {
        seq![]
    } else if is_header(list.last()) || field(list.last(), 'T') is Some {
        field_lines(list.drop_last()).push(list.last())
    } else {
        field_lines(list.drop_last())
    }
}

/// Other lines make no difference to the sections.
proof fn lemma_field_lines(list: Seq<Seq<char>>)
    ensures
        sections(field_lines(list)) == sections(list),
    decreases list.len(),
{
    if list.len() > 0 {
        let init = list.drop_last();
        lemma_field_lines(init);
        if is_header(list.last()) || field(list.last(), 'T') is Some {
            assert(field_lines(list).drop_last() =~= field_lines(init));
        } else {
            let before = sections(init);
            if before.len() > 0 && before.last().1 is None {
                assert(before.drop_last().push((before.last().0, None::<Seq<char>>)) =~= before);
            }
        }
    }
}

/// Lines other than `X:` and `T:` fields do not matter to the index: texts with the same such
/// fields have the same tunes.
pub proof fn law_other_lines_ignored(a: Seq<char>, b: Seq<char>)
    requires
        field_lines(text_lines(a)) == field_lines(text_lines(b)),
    ensures
        abc_tunes(a) == abc_tunes(b),
{
    lemma_field_lines(text_lines(a));
    lemma_field_lines(text_lines(b));
    lemma_tunes_of_sections(a);
    lemma_tunes_of_sections(b);
}

/// The lines of a text whose last line is ended, and of a text behind it, are those of both.
proof fn lemma_joined_lines(a: Seq<char>, b: Seq<char>)
    requires
        a.len() > 0,
        a.last() == '\n',
    ensures
        text_lines(a + b) == text_lines(a) + text_lines(b),
    decreases a.len(),
{
    let s = a + b;
    lemma_line_feed(a);
    lemma_line_feed(s);
    let n = line_feed(a) as int;
    let m = line_feed(s) as int;
    if n == a.len() {
        assert(a[a.len() - 1] != '\n');
    }
    assert(s[n] == '\n');
    if m < n {
        assert(s[m] == a[m]);
    }
    assert(m == n);
    let rest = a.skip(n + 1);
    assert(s.take(n) =~= a.take(n));
    assert(s.skip(n + 1) =~= rest + b);
    if rest.len() > 0 {
        assert(rest.last() == a.last());
        lemma_joined_lines(rest, b);
    } else {
        assert(rest + b =~= b);
        assert(text_lines(rest) =~= seq![]);
    }
    let first = seq![without_return(a.take(n))];
    assert(first + (text_lines(rest) + text_lines(b)) =~= (first + text_lines(rest)) + text_lines(b));
    assert(rest.len() == 0 ==> text_lines(rest) + text_lines(b) =~= text_lines(b));
}

/// Sections behind a header are those of the lines from there on.
proof fn lemma_joined_sections(a: Seq<Seq<char>>, b: Seq<Seq<char>>)
    requires
        b.len() > 0,
        is_header(b[0]),
    ensures
        sections(a + b) == sections(a) + sections(b),
        sections(b).len() > 0,
    decreases b.len(),
{
    let init = b.drop_last();
    assert((a + b).drop_last() =~= a + init);
    assert((a + b).last() == b.last());
    if init.len() > 0 {
        lemma_joined_sections(a, init);
        assert(sections(a + init).last() == sections(init).last());
        assert(sections(a + b) =~= sections(a) + sections(b));
    } else {
        assert(a + init =~= a);
        assert(sections(init) =~= seq![]);
        assert(sections(a + b) =~= sections(a) + sections(b));
    }
}

/// Tune books can be put one behind the other: the index of the whole is that of the first
/// book, followed by that of the second one, which begins with a header. Tunes of the second
/// book whose header gives no readable number are numbered by their place in the whole.
pub proof fn law_joined_books(a: Seq<char>, b: Seq<char>)
    requires
        a.len() > 0,
        a.last() == '\n',
        text_lines(b).len() > 0,
        is_header(text_lines(b)[0]),
    ensures
        abc_tunes(a + b).len() == abc_tunes(a).len() + abc_tunes(b).len(),
        forall|i: int| 0 <= i < abc_tunes(a).len() ==> #[trigger] abc_tunes(a + b)[i] == abc_tunes(a)[i],
        forall|i: int|
            0 <= i < abc_tunes(b).len() ==> abc_tunes(a + b)[abc_tunes(a).len() + i] == section_tune(
                #[trigger] sections(text_lines(b))[i],
                abc_tunes(a).len() + i as nat,
            ),
        forall|i: int|
            0 <= i < abc_tunes(b).len() && u32_of(field(sections(text_lines(b))[i].0, 'X')->0) is Some
                ==> abc_tunes(a + b)[abc_tunes(a).len() + i] == #[trigger] abc_tunes(b)[i],
{
    lemma_joined_lines(a, b);
    lemma_joined_sections(text_lines(a), text_lines(b));
    lemma_tunes_of_sections(a);
    lemma_tunes_of_sections(b);
    lemma_tunes_of_sections(a + b);
}

/// Reads a field of an ABC line.
fn read_field(line: &[char], letter: char) -> (value: Option<&[char]>)
    ensures
        match value {
            Some(v) => field(line@, letter) == Some(v@),
            None => field(line@, letter) is None,
        },
{
    match strip_pair(trim_start(line), letter, ':') {
        Some(rest) => Some(trim(rest)),
        None => None,
    }
}

/// Parse the `X:` / `T:` headers of an ABC file into a per-tune index. The first `T:`
/// after an `X:` is taken as the tune title.
pub fn parse_abc_tunes(content: &str) -> (tunes: Vec<Tune>)
    ensures
        tune_views(tunes@) == abc_tunes(content@),
{
    let chars = chars_of(content);
    let list = lines(chars.as_slice());
    let ghost ll = slices(list@);
    let mut tunes: Vec<Tune> = Vec::new();
    let mut current: Option<Tune> = None;
    let mut titled: bool = false;
    let mut i: usize = 0;
    while i < list.len()
        invariant
            ll == slices(list@),
            i <= list@.len(),
            ({
                let heads = headers(ll, i as nat);
                &&& match current {
                    None => heads.len() == 0 && tunes@.len() == 0,
                    Some(t) => {
                        &&& heads.len() == tunes@.len() + 1
                        &&& t.number == tune_number(ll[heads.last()], tunes@.len())
                        &&& t.title@ == section_title(ll, heads.last() + 1, i as int)
                        &&& titled == first_title(ll, heads.last() + 1, i as int) is Some
                    },
                }
                &&& forall|k: int| 0 <= k < tunes@.len() ==> {
                    &&& (#[trigger] tunes@[k]).number == tune_number(ll[heads[k]], k as nat)
                    &&& tunes@[k].title@ == section_title(ll, heads[k] + 1, heads[k + 1])
                }
            }),
        decreases list@.len() - i,
    {
        let line = list[i];
        assert(ll[i as int] == line@);
        let ghost heads = headers(ll, i as nat);
        if let Some(value) = read_field(line, 'X') {
            if let Some(t) = current {
                tunes.push(t);
            }
            let place: u64 = tunes.len() as u64;
            assert(place as u32 == place % 0x1_0000_0000) by (bit_vector);
            let number: u32 = match parse_u32(value) {
                Some(n) => n,
                None => (place as u32).wrapping_add(1),
            };
            assert(headers(ll, (i + 1) as nat) == heads.push(i as int));
            current = Some(Tune { number, title: String::new() });
            titled = false;
        } else if let Some(value) = read_field(line, 'T') {
            if let Some(mut t) = current {
                if !titled {
                    t.title = string_of(value);
                    titled = true;
                }
                current = Some(t);
            }
        }
        proof {
            lemma_headers(ll, i as nat);
            if current is Some {
                let next = headers(ll, (i + 1) as nat);
                assert(current->0.title@ =~= section_title(ll, next.last() + 1, i + 1));
            }
        }
        i += 1;
    }
    if let Some(t) = current {
        tunes.push(t);
    }
    let ghost heads = headers(ll, ll.len());
    assert(heads.len() == tunes@.len());
    assert forall|k: int| 0 <= k < tunes@.len() implies {
        &&& (#[trigger] tunes@[k]).number == tune_number(ll[heads[k]], k as nat)
        &&& tunes@[k].title@ == section_title(ll, heads[k] + 1, section_end(ll, k))
    } by {
    }
    let mut j: usize = 0;
    while j < tunes.len()
        invariant
            j <= tunes@.len(),
            heads == headers(ll, ll.len()),
            heads.len() == tunes@.len(),
            forall|k: int| 0 <= k < j ==> (#[trigger] tunes@[k])@ == abc_tune(ll, k),
            forall|k: int| j <= k < tunes@.len() ==> {
                &&& (#[trigger] tunes@[k]).number == tune_number(ll[heads[k]], k as nat)
                &&& tunes@[k].title@ == section_title(ll, heads[k] + 1, section_end(ll, k))
            },
        decreases tunes@.len() - j,
    {
        if tunes[j].title.as_str().is_empty() {
            let mut title = String::from_str("Tune ");
            push_decimal(&mut title, tunes[j].number as u64);
            tunes[j].title = title;
        }
        j += 1;
    }
    assert(tune_views(tunes@) =~= abc_tunes(content@));
    tunes
}

/// The name under which a file is listed: its file name, or a question mark if it has none
/// or it is not Unicode.
pub open spec fn listed_name(parts: Seq<PartView>) -> Seq<char> {
    match last_name(parts) {
        Some(name) => if valid_utf8(name) {
            decode_utf8(name)
        } else {
            "?"@
        },
        None => "?"@,
    }
}

/// The name under which the file with the given path components is listed.
pub fn name_from_parts(parts: &Vec<Part>) -> (name: String)
    ensures
        name@ == listed_name(part_views(parts@)),
{
    match name_of(parts) {
        Some(bytes) => match from_utf8(bytes.as_slice()) {
            Some(name) => name,
            None => String::from_str("?"),
        },
        None => String::from_str("?"),
    }
}

/// The name under which a file is listed.
pub fn file_name(path: &PathBuf) -> (name: String)
    ensures
        name@ == listed_name(path_components(*path)),
{
    name_from_parts(&components(path))
}

/// The title of a LilyPond file: that of its `\header` block, or the name under which it is
/// listed if there is none or it is empty.
pub open spec fn lilypond_entry_title(parts: Seq<PartView>, source: Seq<char>) -> Seq<char> {
    match header_title(source) {
        Some(title) => if title.len() > 0 {
            title
        } else {
            listed_name(parts)
        },
        None => listed_name(parts),
    }
}

/// The entry of a file: there is one if its format is supported, and only ABC files have
/// tunes.
pub open spec fn entry_of(file: SourceFile) -> Option<EntryView> {
    let parts = path_components(file.path);
    match format_of(parts) {
        Some(format) => Some(
            EntryView {
                path: file.path,
                format,
                title: match format {
                    Format::Abc => listed_name(parts),
                    Format::LilyPond => lilypond_entry_title(parts, lossy_utf8(file.content@)),
                },
                tunes: match format {
                    Format::Abc => abc_tunes(lossy_utf8(file.content@)),
                    Format::LilyPond => seq![],
                },
            },
        ),
        None => None,
    }
}

/// The entries of those files that have one.
pub open spec fn entries_of(files: Seq<SourceFile>) -> Seq<EntryView>
    decreases files.len(),
{
    if files.len() == 0 {
        seq![]
    } else {
        match entry_of(files.last()) {
            Some(entry) => entries_of(files.drop_last()).push(entry),
            None => entries_of(files.drop_last()),
        }
    }
}

/// The keys by which entries are ordered: their paths.
pub open spec fn entry_keys(entries: Seq<EntryView>) -> Seq<Seq<Seq<u8>>> {
    entries.map_values(|e: EntryView| path_key(path_components(e.path)))
}

/// The title of a LilyPond file.
fn title_of_lilypond(path: &PathBuf, source: &str) -> (title: String)
    ensures
        title@ == lilypond_entry_title(path_components(*path), source@),
{
    match lilypond_title(source) {
        Some(title) => if title.as_str().is_empty() {
            file_name(path)
        } else {
            title
        },
        None => file_name(path),
    }
}

/// Makes the entry of a file.
pub fn index_file(file: SourceFile) -> (entry: Option<FileEntry>)
    ensures
        match entry {
            Some(e) => entry_of(file) == Some(e@),
            None => entry_of(file) is None,
        },
{
    match Format::from_path(&file.path) {
        Some(format) => {
            // Read leniently so Latin-1 / non-UTF8 ABC books still index their tunes.
            let content = from_utf8_lossy(file.content.as_slice());
            let (title, tunes): (String, Vec<Tune>) = match format {
                Format::Abc => (file_name(&file.path), parse_abc_tunes(content.as_str())),
                Format::LilyPond => (title_of_lilypond(&file.path, content.as_str()), Vec::new()),
            };
            assert(format is LilyPond ==> tune_views(tunes@) =~= seq![]);
            Some(FileEntry { path: file.path, format, title, tunes })
        },
        None => None,
    }
}

/// Index the files met under a folder: an entry for each `.ly`/`.abc` file, sorted by path.
pub fn scan(files: Vec<SourceFile>) -> (entries: Vec<FileEntry>)
    ensures
        entry_views(entries@) == sorted_by(entries_of(files@), entry_keys(entries_of(files@))),
{
    let ghost all = files@;
    let mut out: Vec<FileEntry> = Vec::new();
    let mut keys: Vec<Vec<Vec<u8>>> = Vec::new();
    assert(all.take(0) =~= seq![]);
    assert(entry_views(out@) =~= seq![]);
    assert(key_views(keys@) =~= entry_keys(seq![]));
    for file in it: files
        invariant
            it.seq() == all,
            out@.len() == keys@.len(),
            entry_views(out@) == entries_of(all.take(it.index())),
            key_views(keys@) == entry_keys(entry_views(out@)),
    {
        let ghost before = out@;
        let ghost keys_before = keys@;
        assert(all.take(it.index() + 1).drop_last() =~= all.take(it.index()));
        assert(all.take(it.index() + 1).last() == file);
        if let Some(entry) = index_file(file) {
            let key = sort_key(&components(&entry.path));
            keys.push(key);
            out.push(entry);
            assert(entry_views(out@) =~= entry_views(before).push(entry@));
            assert(key_views(keys@) =~= key_views(keys_before).push(path_key(path_components(entry.path))));
            assert(entry_keys(entry_views(out@)) =~= entry_keys(entry_views(before)).push(
                path_key(path_components(entry.path)),
            ));
        }
    }
    assert(all.take(all.len() as int) =~= all);
    let ghost unsorted = out@;
    let ghost kv = key_views(keys@);
    let sorted = sort_by_keys(out, keys);
    proof {
        law_stable_order_unique(kv, seq![]);
        assert(entry_views(sorted@) =~= sorted_by(entry_views(unsorted), kv));
    }
    sorted
}

/// The index of a folder holds exactly the entries of the supported files, in the order of
/// their paths.
pub proof fn law_scan_sorted(files: Seq<SourceFile>)
    ensures
        ({
            let found = entries_of(files);
            let listed = sorted_by(found, entry_keys(found));
            &&& listed.to_multiset() == found.to_multiset()
            &&& forall|i: int, j: int|
                0 <= i < j < listed.len() ==> !key_before(
                    path_key(path_components((#[trigger] listed[j]).path)),
                    path_key(path_components((#[trigger] listed[i]).path)),
                )
        }),
{
    let found = entries_of(files);
    let keys = entry_keys(found);
    let listed = sorted_by(found, keys);
    law_sorted(found, keys);
    law_stable_order_unique(keys, seq![]);
    assert(sorted_by(keys, keys) =~= entry_keys(listed));
    assert forall|i: int, j: int| 0 <= i < j < listed.len() implies !key_before(
        path_key(path_components((#[trigger] listed[j]).path)),
        path_key(path_components((#[trigger] listed[i]).path)),
    ) by {
        assert(!key_before(sorted_by(keys, keys)[j], sorted_by(keys, keys)[i]));
    }
}

/// A file is indexed exactly if its format is supported.
pub proof fn law_only_supported_files(files: Seq<SourceFile>, entry: EntryView)
    ensures
        entries_of(files).contains(entry) <==> exists|i: int|
            0 <= i < files.len() && entry_of(#[trigger] files[i]) == Some(entry),
        entries_of(files).contains(entry) ==> format_of(path_components(entry.path)) == Some(entry.format),
    decreases files.len(),
{
    if files.len() > 0 {
        let init = files.drop_last();
        let before = entries_of(init);
        let all = entries_of(files);
        law_only_supported_files(init, entry);
        if before.contains(entry) {
            assert(all[before.index_of(entry)] == entry);
            let i = choose|i: int| 0 <= i < init.len() && entry_of(#[trigger] init[i]) == Some(entry);
            assert(entry_of(files[i]) == Some(entry));
        }
        if entry_of(files.last()) == Some(entry) {
            assert(all[all.len() - 1] == entry);
            assert(entry_of(files[files.len() - 1]) == Some(entry));
        }
        if all.contains(entry) {
            let k = all.index_of(entry);
            if k < before.len() {
                assert(before[k] == entry);
            }
        }
        if exists|i: int| 0 <= i < files.len() && entry_of(#[trigger] files[i]) == Some(entry) {
            let i = choose|i: int| 0 <= i < files.len() && entry_of(#[trigger] files[i]) == Some(entry);
            if i < init.len() {
                assert(entry_of(init[i]) == Some(entry));
            }
        }
    }
}

/// A field is read whole, whatever white space stands around its letter and its value.
pub proof fn lemma_field_read(
    indent: Seq<char>,
    letter: char,
    before: Seq<char>,
    value: Seq<char>,
    after: Seq<char>,
    other: char,
)
    requires
        !white_space(letter),
        other != letter,
        all_white(indent),
        all_white(before),
        bare(value),
        all_white(after),
    ensures
        field(indent + seq![letter, ':'] + before + value + after, letter) == Some(value),
        field(indent + seq![letter, ':'] + before + value + after, other) is None,
{
    let line = indent + seq![letter, ':'] + before + value + after;
    let body = seq![letter, ':'] + (before + value + after);
    assert(line =~= indent + body);
    lemma_trimmed_start(indent, body);
    assert(body.take(2) =~= seq![letter, ':']);
    assert(body.skip(2) =~= before + value + after);
    lemma_trimmed(before, value, after);
    assert(body.take(2)[0] == letter);
    assert(seq![other, ':'][0] == other);
}

/// The lines of a tune book in which each tune has an `X:` line and a `T:` line.
pub open spec fn book_lines(book: Seq<(Seq<char>, Seq<char>)>) -> Seq<Seq<char>>
    decreases book.len(),
{
    if book.len() == 0 {
        seq![]
    } else {
        book_lines(book.drop_last()).push(seq!['X', ':'] + book.last().0).push(seq!['T', ':'] + book.last().1)
    }
}

/// Whether a text can stand in a field: it is one line, without white space at its ends.
pub open spec fn is_value(s: Seq<char>) -> bool {
    bare(s) && !s.contains('\n')
}

/// A field without white space.
proof fn lemma_plain_field(letter: char, value: Seq<char>)
    requires
        !white_space(letter),
        is_value(value),
    ensures
        field(seq![letter, ':'] + value, letter) == Some(value),
        letter != 'X' ==> field(seq![letter, ':'] + value, 'X') is None,
        letter != 'T' ==> field(seq![letter, ':'] + value, 'T') is None,
        letter != '\n' ==> is_line(seq![letter, ':'] + value),
{
    let none = Seq::<char>::empty();
    let line = seq![letter, ':'] + value;
    lemma_field_read(none, letter, none, value, none, if letter == 'X' { 'T' } else { 'X' });
    lemma_field_read(none, letter, none, value, none, if letter == 'T' { 'X' } else { 'T' });
    assert(none + seq![letter, ':'] + none + value + none =~= line);
    if letter != '\n' {
        if line.contains('\n') {
            let i = line.index_of('\n');
            assert(value[i - 2] == '\n');
        }
        if value.len() > 0 {
            assert(line.last() == value.last());
        }
    }
}

/// The sections of a book are its tunes.
proof fn lemma_book_sections(book: Seq<(Seq<char>, Seq<char>)>)
    requires
        forall|i: int| 0 <= i < book.len() ==> is_value((#[trigger] book[i]).0) && is_value(book[i].1),
    ensures
        sections(book_lines(book)).len() == book.len(),
        forall|i: int|
            0 <= i < book.len() ==> {
                &&& (#[trigger] sections(book_lines(book))[i]).0 == seq!['X', ':'] + book[i].0
                &&& sections(book_lines(book))[i].1 == Some(book[i].1)
            },
        forall|i: int| 0 <= i < book_lines(book).len() ==> is_line(#[trigger] book_lines(book)[i]),
    decreases book.len(),
{
    if book.len() > 0 {
        let init = book.drop_last();
        let (v, t) = book.last();
        assert forall|i: int| 0 <= i < init.len() implies is_value((#[trigger] init[i]).0) && is_value(init[i].1) by {
            assert(init[i] == book[i]);
        }
        assert(book[book.len() - 1] == (v, t));
        lemma_book_sections(init);
        let h = seq!['X', ':'] + v;
        let l = seq!['T', ':'] + t;
        lemma_plain_field('X', v);
        lemma_plain_field('T', t);
        let one = book_lines(init).push(h);
        let two = one.push(l);
        assert(one.drop_last() =~= book_lines(init));
        assert(two.drop_last() =~= one);
        let before = sections(book_lines(init));
        assert(sections(one) == before.push((h, None)));
        assert(field(l, 'X') is None);
        assert(sections(two) == before.push((h, None)).drop_last().push((h, Some(t))));
        assert(sections(two) =~= before.push((h, Some(t))));
        assert forall|i: int| 0 <= i < two.len() implies is_line(#[trigger] two[i]) by {
            if i < book_lines(init).len() {
                assert(two[i] == book_lines(init)[i]);
            }
        }
    }
}

/// A tune book that is written is read back: every tune is there, in order, with its number and
/// its whole title. A tune with an empty title is called by its number, and one whose number
/// cannot be read is numbered by its place.
pub proof fn law_written_book_read(content: &str, tunes: Vec<Tune>, book: Seq<(Seq<char>, Seq<char>)>, i: int)
    requires
        call_ensures(parse_abc_tunes, (content,), tunes),
        content@ == ended_lines(book_lines(book)),
        forall|k: int| 0 <= k < book.len() ==> is_value((#[trigger] book[k]).0) && is_value(book[k].1),
        0 <= i < book.len(),
    ensures
        tunes@.len() == book.len(),
        ({
            let (number, title) = book[i];
            let digits = forall|k: int| 0 <= k < number.len() ==> is_digit(#[trigger] number[k]);
            &&& title.len() > 0 ==> tunes@[i].title@ == title
            &&& title.len() == 0 ==> tunes@[i].title@ == "Tune "@ + decimal(tunes@[i].number as nat)
            &&& number.len() > 0 && digits && place_value(number) <= u32::MAX ==> tunes@[i].number == place_value(number)
            &&& number.len() == 0 && i < u32::MAX ==> tunes@[i].number == i + 1
            &&& number.len() > 0 && number[0] != '+' && !digits && i < u32::MAX ==> tunes@[i].number == i + 1
            &&& digits && place_value(number) > u32::MAX && i < u32::MAX ==> tunes@[i].number == i + 1
        }),
{
    let list = book_lines(book);
    lemma_book_sections(book);
    lemma_lines_read(list, seq![]);
    assert(ended_lines(list) + Seq::<char>::empty() =~= content@);
    lemma_tunes_of_sections(content@);
    assert(tune_views(tunes@).len() == tunes@.len());
    assert(tune_views(tunes@)[i] == tunes@[i]@);
    let (number, title) = book[i];
    lemma_plain_field('X', number);
    assert(sections(list)[i].0 == seq!['X', ':'] + number);
    let digits = forall|k: int| 0 <= k < number.len() ==> is_digit(#[trigger] number[k]);
    if digits {
        lemma_place_value(number);
        if number.len() > 0 {
            assert(is_digit(number[0]));
        }
    }
    assert(number.len() > 0 && number[0] != '+' ==> unsigned_part(number) == number);
    assert((i + 1) % 0x1_0000_0000 == i + 1 || i >= u32::MAX);
}

/// A text of a single tune: one tune is read, with its number and its whole title.
pub proof fn law_written_tune_read(content: &str, tunes: Vec<Tune>, number: u32, title: Seq<char>)
    requires
        call_ensures(parse_abc_tunes, (content,), tunes),
        content@ == "X:"@ + decimal(number as nat) + "\nT:"@ + title + "\n"@,
        title.len() > 0,
        bare(title),
        !title.contains('\n'),
    ensures
        tunes@.len() == 1,
        tunes@[0].number == number,
        tunes@[0].title@ == title,
{
    reveal_strlit("X:");
    reveal_strlit("\nT:");
    reveal_strlit("\n");
    let v = decimal(number as nat);
    lemma_decimal(number as nat);
    lemma_place_value(v);
    assert(is_value(v)) by {
        assert(is_digit(v[0]) && is_digit(v[v.len() - 1]));
        if v.contains('\n') {
            assert(is_digit(v[v.index_of('\n')]));
        }
    }
    let book = seq![(v, title)];
    assert(book.drop_last() =~= seq![]);
    let h = seq!['X', ':'] + v;
    let l = seq!['T', ':'] + title;
    assert(book_lines(seq![]) =~= seq![]);
    assert(book_lines(book) =~= seq![h, l]);
    let list = book_lines(book);
    assert(list.skip(1).skip(1) =~= seq![]);
    reveal_with_fuel(ended_lines, 3);
    assert(ended_lines(list) =~= h + seq!['\n'] + (l + seq!['\n'] + seq![]));
    assert(content@ =~= ended_lines(list));
    law_written_book_read(content, tunes, book, 0);
}

/// Lines with the same fields make the same tunes.
proof fn lemma_same_fields(a: Seq<Seq<char>>, b: Seq<Seq<char>>, n: nat)
    requires
        a.len() == b.len(),
        n <= a.len(),
        forall|i: int|
            0 <= i < a.len() ==> field(#[trigger] a[i], 'X') == field(b[i], 'X') && field(a[i], 'T') == field(b[i], 'T'),
    ensures
        headers(a, n) == headers(b, n),
        forall|from: int| 0 <= from ==> #[trigger] first_title(a, from, n as int) == first_title(b, from, n as int),
    decreases n,
{
    if n > 0 {
        lemma_same_fields(a, b, (n - 1) as nat);
        assert(field(a[n - 1], 'X') == field(b[n - 1], 'X'));
        assert forall|from: int| 0 <= from implies #[trigger] first_title(a, from, n as int) == first_title(
            b,
            from,
            n as int,
        ) by {
            assert(first_title(a, from, n - 1) == first_title(b, from, n - 1));
        }
    }
}

/// White space at the ends of a line makes no difference to its fields.
proof fn lemma_padded_field(indent: Seq<char>, line: Seq<char>, after: Seq<char>, letter: char)
    requires
        !white_space(letter),
        all_white(indent),
        all_white(after),
    ensures
        field(indent + line + after, letter) == field(line, letter),
{
    let (w, rest) = lemma_start_split(line);
    let all = indent + w;
    assert forall|i: int| 0 <= i < all.len() implies white_space(#[trigger] all[i]) by {
        if i < indent.len() {
            assert(all[i] == indent[i]);
        } else {
            assert(all[i] == w[i - indent.len()]);
        }
    }
    if rest.len() > 0 {
        let body = rest + after;
        assert(indent + line + after =~= all + body);
        assert(body[0] == rest[0]);
        lemma_trimmed_start(all, body);
        if rest.len() >= 2 {
            assert(body.take(2) =~= rest.take(2));
            assert(body.skip(2) =~= rest.skip(2) + after);
            lemma_trimmed_behind(rest.skip(2), after);
        } else {
            if has_prefix(body, seq![letter, ':']) {
                assert(body.take(2)[1] == ':');
                assert(body[1] == after[0]);
            }
        }
    } else {
        let white = all + after;
        assert forall|i: int| 0 <= i < white.len() implies white_space(#[trigger] white[i]) by {
            if i < all.len() {
                assert(white[i] == all[i]);
            } else {
                assert(white[i] == after[i - all.len()]);
            }
        }
        assert(indent + line + after =~= white + seq![]);
        lemma_trimmed_start(white, seq![]);
    }
}

/// A text is white space and what is left without it.
proof fn lemma_start_split(s: Seq<char>) -> (r: (Seq<char>, Seq<char>))
    ensures
        s == r.0 + r.1,
        all_white(r.0),
        r.1 == trimmed_start(s),
        r.1.len() > 0 ==> !white_space(r.1[0]),
    decreases s.len(),
{
    if s.len() > 0 && white_space(s[0]) {
        let (w, rest) = lemma_start_split(s.drop_first());
        let more = seq![s[0]] + w;
        assert(s =~= seq![s[0]] + s.drop_first());
        assert(s =~= more + rest);
        assert forall|i: int| 0 <= i < more.len() implies white_space(#[trigger] more[i]) by {
            if i > 0 {
                assert(more[i] == w[i - 1]);
            }
        }
        (more, rest)
    } else {
        assert(s =~= Seq::<char>::empty() + s);
        (seq![], s)
    }
}

/// More white space behind a text makes no difference to the trimmed text.
proof fn lemma_trimmed_behind(s: Seq<char>, after: Seq<char>)
    requires
        all_white(after),
    ensures
        trimmed(s + after) == trimmed(s),
{
    let (w, rest) = lemma_start_split(s);
    if rest.len() > 0 {
        assert(s + after =~= w + (rest + after));
        assert((rest + after)[0] == rest[0]);
        lemma_trimmed_start(w, rest + after);
        lemma_trimmed_end_behind(rest, after);
    } else {
        let white = w + after;
        assert forall|i: int| 0 <= i < white.len() implies white_space(#[trigger] white[i]) by {
            if i < w.len() {
                assert(white[i] == w[i]);
            } else {
                assert(white[i] == after[i - w.len()]);
            }
        }
        assert(s + after =~= white + seq![]);
        lemma_trimmed_start(white, seq![]);
    }
}

/// More white space behind a text makes no difference to the text trimmed at its end.
proof fn lemma_trimmed_end_behind(s: Seq<char>, after: Seq<char>)
    requires
        all_white(after),
    ensures
        trimmed_end(s + after) == trimmed_end(s),
    decreases after.len(),
{
    if after.len() > 0 {
        let rest = after.drop_last();
        assert((s + after).last() == after[after.len() - 1]);
        assert((s + after).drop_last() =~= s + rest);
        assert forall|i: int| 0 <= i < rest.len() implies white_space(#[trigger] rest[i]) by {
            assert(rest[i] == after[i]);
        }
        lemma_trimmed_end_behind(s, rest);
    } else {
        assert(s + after =~= s);
    }
}

/// White space at the ends of lines does not matter to the index.
pub proof fn law_padding_ignored(
    content: &str,
    tunes: Vec<Tune>,
    padded: &str,
    again: Vec<Tune>,
    list: Seq<Seq<char>>,
    indents: Seq<Seq<char>>,
    ends: Seq<Seq<char>>,
)
    requires
        call_ensures(parse_abc_tunes, (content,), tunes),
        call_ensures(parse_abc_tunes, (padded,), again),
        list.len() == indents.len() == ends.len(),
        forall|i: int|
            0 <= i < list.len() ==> {
                &&& is_line(#[trigger] list[i])
                &&& is_line(indents[i] + list[i] + ends[i])
                &&& all_white(indents[i])
                &&& all_white(ends[i])
            },
        content@ == ended_lines(list),
        padded@ == ended_lines(Seq::new(list.len(), |i: int| indents[i] + list[i] + ends[i])),
    ensures
        tune_views(again@) == tune_views(tunes@),
{
    let other = Seq::new(list.len(), |i: int| indents[i] + list[i] + ends[i]);
    assert forall|i: int| 0 <= i < other.len() implies is_line(#[trigger] other[i]) by {
        assert(is_line(list[i]));
    }
    lemma_lines_read(list, seq![]);
    lemma_lines_read(other, seq![]);
    assert(ended_lines(list) + Seq::<char>::empty() =~= content@);
    assert(ended_lines(other) + Seq::<char>::empty() =~= padded@);
    assert forall|i: int| 0 <= i < list.len() implies field(#[trigger] list[i], 'X') == field(other[i], 'X') && field(
        list[i],
        'T',
    ) == field(other[i], 'T') by {
        assert(is_line(list[i]));
        lemma_padded_field(indents[i], list[i], ends[i], 'X');
        lemma_padded_field(indents[i], list[i], ends[i], 'T');
    }
    lemma_same_fields(list, other, list.len());
    lemma_headers(list, list.len());
    assert(abc_tunes(content@).len() == abc_tunes(padded@).len());
    assert forall|k: int| 0 <= k < abc_tunes(content@).len() implies abc_tunes(content@)[k] == abc_tunes(padded@)[k] by {
        let head = headers(list, list.len())[k];
        let end = section_end(list, k);
        assert(field(list[head], 'X') == field(other[head], 'X'));
        lemma_headers(list, list.len());
        lemma_same_fields(list, other, end as nat);
        assert(first_title(list, head + 1, end) == first_title(other, head + 1, end));
    }
    assert(abc_tunes(content@) =~= abc_tunes(padded@));
}

/// Sections go on in the same way from the same state.
proof fn lemma_sections_go_on(a: Seq<Seq<char>>, b: Seq<Seq<char>>, more: Seq<Seq<char>>)
    requires
        sections(a) == sections(b),
    ensures
        sections(a + more) == sections(b + more),
    decreases more.len(),
{
    if more.len() > 0 {
        lemma_sections_go_on(a, b, more.drop_last());
        assert((a + more).drop_last() =~= a + more.drop_last());
        assert((b + more).drop_last() =~= b + more.drop_last());
        assert((a + more).last() == more.last() && (b + more).last() == more.last());
    } else {
        assert(a + more =~= a);
        assert(b + more =~= b);
    }
}

/// A line that adds nothing to the sections before it adds nothing to the index.
proof fn lemma_line_ignored(a: Seq<Seq<char>>, line: Seq<char>, b: Seq<Seq<char>>, with: Seq<char>, without: Seq<char>)
    requires
        forall|i: int| 0 <= i < a.len() ==> is_line(#[trigger] a[i]),
        forall|i: int| 0 <= i < b.len() ==> is_line(#[trigger] b[i]),
        is_line(line),
        sections(a.push(line)) == sections(a),
        with == ended_lines(a.push(line) + b),
        without == ended_lines(a + b),
    ensures
        abc_tunes(with) == abc_tunes(without),
{
    let long = a.push(line) + b;
    let short = a + b;
    assert forall|i: int| 0 <= i < long.len() implies is_line(#[trigger] long[i]) by {
        if i < a.len() {
            assert(long[i] == a[i]);
        } else if i > a.len() {
            assert(long[i] == b[i - a.len() - 1]);
        }
    }
    assert forall|i: int| 0 <= i < short.len() implies is_line(#[trigger] short[i]) by {
        if i < a.len() {
            assert(short[i] == a[i]);
        } else {
            assert(short[i] == b[i - a.len()]);
        }
    }
    lemma_lines_read(long, seq![]);
    lemma_lines_read(short, seq![]);
    assert(ended_lines(long) + Seq::<char>::empty() =~= with);
    assert(ended_lines(short) + Seq::<char>::empty() =~= without);
    lemma_sections_go_on(a.push(line), a, b);
    lemma_tunes_of_sections(with);
    lemma_tunes_of_sections(without);
}

/// A line that, white space in front of it aside, begins with neither `X:` nor `T:` does not
/// matter to the index, wherever it stands.
pub proof fn law_music_ignored(
    content: &str,
    tunes: Vec<Tune>,
    shorter: &str,
    again: Vec<Tune>,
    a: Seq<Seq<char>>,
    indent: Seq<char>,
    line: Seq<char>,
    b: Seq<Seq<char>>,
)
    requires
        call_ensures(parse_abc_tunes, (content,), tunes),
        call_ensures(parse_abc_tunes, (shorter,), again),
        forall|i: int| 0 <= i < a.len() ==> is_line(#[trigger] a[i]),
        forall|i: int| 0 <= i < b.len() ==> is_line(#[trigger] b[i]),
        is_line(indent + line),
        all_white(indent),
        line.len() > 0 ==> !white_space(line[0]),
        line.len() >= 2 && line[1] == ':' ==> line[0] != 'X' && line[0] != 'T',
        content@ == ended_lines(a.push(indent + line) + b),
        shorter@ == ended_lines(a + b),
    ensures
        tune_views(again@) == tune_views(tunes@),
{
    let whole = indent + line;
    lemma_trimmed_start(indent, line);
    if has_prefix(line, seq!['X', ':']) {
        assert(line.take(2)[0] == 'X' && line.take(2)[1] == ':');
    }
    if has_prefix(line, seq!['T', ':']) {
        assert(line.take(2)[0] == 'T' && line.take(2)[1] == ':');
    }
    assert(a.push(whole).drop_last() =~= a);
    let before = sections(a);
    if before.len() > 0 && before.last().1 is None {
        assert(before.drop_last().push((before.last().0, None::<Seq<char>>)) =~= before);
    }
    lemma_line_ignored(a, whole, b, content@, shorter@);
}

/// Of the `T:` lines of a tune only the first one matters, and one before any tune does not.
pub proof fn law_later_titles_ignored(
    content: &str,
    tunes: Vec<Tune>,
    shorter: &str,
    again: Vec<Tune>,
    a: Seq<Seq<char>>,
    number: Seq<char>,
    title: Seq<char>,
    later: Seq<char>,
    b: Seq<Seq<char>>,
)
    requires
        call_ensures(parse_abc_tunes, (content,), tunes),
        call_ensures(parse_abc_tunes, (shorter,), again),
        forall|i: int| 0 <= i < a.len() ==> is_line(#[trigger] a[i]),
        forall|i: int| 0 <= i < b.len() ==> is_line(#[trigger] b[i]),
        is_value(number),
        is_value(title),
        is_value(later),
        ({
            let head = a.push(seq!['X', ':'] + number).push(seq!['T', ':'] + title);
            let line = seq!['T', ':'] + later;
            ||| content@ == ended_lines(head.push(line) + b) && shorter@ == ended_lines(head + b)
            ||| content@ == ended_lines(Seq::<Seq<char>>::empty().push(line) + b) && shorter@ == ended_lines(
                Seq::<Seq<char>>::empty() + b,
            )
        }),
    ensures
        tune_views(again@) == tune_views(tunes@),
{
    let h = seq!['X', ':'] + number;
    let t = seq!['T', ':'] + title;
    let line = seq!['T', ':'] + later;
    let none = Seq::<Seq<char>>::empty();
    let one = a.push(h);
    let head = one.push(t);
    lemma_plain_field('X', number);
    lemma_plain_field('T', title);
    lemma_plain_field('T', later);
    assert(one.drop_last() =~= a);
    assert(head.drop_last() =~= one);
    assert(head.push(line).drop_last() =~= head);
    assert(none.push(line).drop_last() =~= none);
    assert(field(t, 'X') is None && field(line, 'X') is None);
    assert(sections(one).last() == (h, None::<Seq<char>>));
    assert(sections(head).last() == (h, Some(title)));
    assert(sections(head.push(line)) == sections(head));
    assert(sections(none.push(line)) == sections(none));
    assert forall|i: int| 0 <= i < head.len() implies is_line(#[trigger] head[i]) by {
        if i < a.len() {
            assert(head[i] == a[i]);
        }
    }
    if content@ == ended_lines(head.push(line) + b) && shorter@ == ended_lines(head + b) {
        lemma_line_ignored(head, line, b, content@, shorter@);
    } else {
        lemma_line_ignored(none, line, b, content@, shorter@);
    }
}

/// A file is listed under its whole name, if that is Unicode.
pub proof fn law_listed_by_name(path: PathBuf, name: String, dir: Seq<PartView>, bytes: Seq<u8>)
    requires
        call_ensures(file_name, (&path,), name),
        path_components(path) == dir.push(PartView::Normal(bytes)),
    ensures
        valid_utf8(bytes) ==> name@ == decode_utf8(bytes),
        !valid_utf8(bytes) ==> name@ == "?"@,
{
    assert(path_components(path).last() == PartView::Normal(bytes));
}

/// The entry of a file: it has the path and the format of the file. An ABC file is listed under
/// its name, with the tunes that its text holds. A LilyPond file is listed under the title that
/// its text gives, or else under its name, and has no tunes. Other files have no entry.
pub proof fn law_entry_of_file(
    file: SourceFile,
    entry: Option<FileEntry>,
    format: Option<Format>,
    name: String,
    text: &str,
    tunes: Vec<Tune>,
    title: Option<String>,
)
    requires
        call_ensures(index_file, (file,), entry),
        call_ensures(Format::from_path, (&file.path,), format),
        call_ensures(file_name, (&file.path,), name),
        call_ensures(parse_abc_tunes, (text,), tunes),
        call_ensures(lilypond_title, (text,), title),
    ensures
        entry is Some <==> format is Some,
        entry is Some ==> entry->0.path == file.path && Some(entry->0.format) == format,
        format == Some(Format::Abc) ==> entry->0.title@ == name@,
        format == Some(Format::Abc) && text@ == lossy_utf8(file.content@) ==> tune_views(entry->0.tunes@)
            == tune_views(tunes@),
        format == Some(Format::LilyPond) ==> entry->0.tunes@.len() == 0,
        format == Some(Format::LilyPond) && text@ == lossy_utf8(file.content@) ==> entry->0.title@ == if title is Some
            && title->0@.len() > 0 {
            title->0@
        } else {
            name@
        },
{
    if entry is Some {
        assert(tune_views(entry->0.tunes@).len() == entry->0.tunes@.len());
    }
}

/// The paths of a list of entries.
pub open spec fn entry_paths(entries: Seq<FileEntry>) -> Seq<PathBuf> {
    entries.map_values(|e: FileEntry| e.path)
}

/// The paths of those files that have a format.
pub open spec fn supported_paths(files: Seq<SourceFile>) -> Seq<PathBuf> {
    files.map_values(|f: SourceFile| f.path).filter(|p: PathBuf| format_of(path_components(p)) is Some)
}

/// The entries of files are those of the supported ones, in the same order.
proof fn lemma_entries_paths(files: Seq<SourceFile>)
    ensures
        entries_of(files).map_values(|e: EntryView| e.path) == supported_paths(files),
    decreases files.len(),
{
    reveal(Seq::filter);
    let g = |e: EntryView| e.path;
    if files.len() > 0 {
        let init = files.drop_last();
        lemma_entries_paths(init);
        let all = files.map_values(|f: SourceFile| f.path);
        assert(all.drop_last() =~= init.map_values(|f: SourceFile| f.path));
        assert(all.last() == files.last().path);
        match entry_of(files.last()) {
            Some(entry) => {
                assert(entries_of(files).map_values(g) =~= entries_of(init).map_values(g).push(entry.path));
            },
            None => (),
        }
    } else {
        assert(entries_of(files).map_values(g) =~= seq![]);
        assert(files.map_values(|f: SourceFile| f.path) =~= seq![]);
    }
}

/// The index lists every supported file as often as it was met, whatever their number, and
/// nothing else, in the order of the paths.
pub proof fn law_scan_lists_all(files: Vec<SourceFile>, entries: Vec<FileEntry>)
    requires
        call_ensures(scan, (files,), entries),
    ensures
        entry_paths(entries@).to_multiset() == supported_paths(files@).to_multiset(),
        forall|i: int| 0 <= i < entries@.len() ==> exists|j: int|
            0 <= j < files@.len() && entry_of(#[trigger] files@[j]) == Some((#[trigger] entries@[i])@),
        forall|i: int, j: int|
            0 <= i < j < entries@.len() ==> !comes_first(
                path_key(path_components((#[trigger] entries@[j]).path)),
                path_key(path_components((#[trigger] entries@[i]).path)),
            ),
{
    let found = entries_of(files@);
    let keys = entry_keys(found);
    let g = |e: EntryView| e.path;
    let paths = found.map_values(g);
    let ev = entry_views(entries@);
    lemma_entries_paths(files@);
    law_stable_order_unique(keys, seq![]);
    law_sorted(paths, keys);
    assert(ev.len() == entries@.len());
    assert forall|i: int| 0 <= i < ev.len() implies ev[i] == (#[trigger] entries@[i])@ by {}
    assert(entry_paths(entries@) =~= sorted_by(paths, keys)) by {
        assert forall|i: int| 0 <= i < ev.len() implies entry_paths(entries@)[i] == sorted_by(paths, keys)[i] by {
            assert(ev[i] == entries@[i]@);
        }
    }
    assert forall|i: int| 0 <= i < entries@.len() implies exists|j: int|
        0 <= j < files@.len() && entry_of(#[trigger] files@[j]) == Some((#[trigger] entries@[i])@) by {
        assert(ev[i] == found[sorting(keys)[i]]);
        assert(found.contains(ev[i]));
        law_only_supported_files(files@, ev[i]);
    }
    law_scan_sorted(files@);
    assert forall|i: int, j: int| 0 <= i < j < entries@.len() implies !comes_first(
        path_key(path_components((#[trigger] entries@[j]).path)),
        path_key(path_components((#[trigger] entries@[i]).path)),
    ) by {
        assert(ev[i] == entries@[i]@ && ev[j] == entries@[j]@);
        lemma_key_decided(path_key(path_components(ev[j].path)), path_key(path_components(ev[i].path)));
    }
}

} // verus!
