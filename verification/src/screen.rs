//! What the screen says of the state: the rows of the file tree, the labels, and the warning
//! about missing tools.

use vstd::prelude::*;

use crate::app::{App, AppView, Selection};
use crate::index::TuneView;
use crate::path::{text_view, texts};
use crate::text::decimal;
use crate::text::push_decimal;
use crate::tree::DirNode;

verus! {

/// The row of a tune: its label, and whether it is the selected one.
pub struct TuneRow {
    pub number: u32,
    pub label: String,
    pub selected: bool,
}

/// What a [`TuneRow`] holds.
pub struct TuneRowView {
    pub number: u32,
    pub label: Seq<char>,
    pub selected: bool,
}

impl View for TuneRow {
    type V = TuneRowView;

    open spec fn view(&self) -> TuneRowView {
        TuneRowView { number: self.number, label: self.label@, selected: self.selected }
    }
}

/// The row of a file: a leaf if it has no tunes, or an expandable tune list. It is marked as
/// selected when the whole file (no specific tune) is.
pub struct FileRow {
    pub title: String,
    pub selected: bool,
    pub tunes: Vec<TuneRow>,
}

/// What a [`FileRow`] holds.
pub struct FileRowView {
    pub title: Seq<char>,
    pub selected: bool,
    pub tunes: Seq<TuneRowView>,
}

/// What a list of tune rows holds.
pub open spec fn tune_row_views(rows: Seq<TuneRow>) -> Seq<TuneRowView> {
    rows.map_values(|r: TuneRow| r@)
}

impl View for FileRow {
    type V = FileRowView;

    open spec fn view(&self) -> FileRowView {
        FileRowView { title: self.title@, selected: self.selected, tunes: tune_row_views(self.tunes@) }
    }
}

/// Whether a file is selected with the given tune, or as a whole.
pub open spec fn is_selected(selection: Option<Selection>, entry: int, tune: Option<u32>) -> bool {
    match selection {
        Some(sel) => sel.entry == entry && sel.tune == tune,
        None => false,
    }
}

/// The row of a tune.
pub open spec fn tune_row(selection: Option<Selection>, entry: int, tune: TuneView) -> TuneRowView {
    TuneRowView {
        number: tune.number,
        label: decimal(tune.number as nat) + ". "@ + tune.title,
        selected: is_selected(selection, entry, Some(tune.number)),
    }
}

/// The row of the entry at a place.
pub open spec fn row_of(s: AppView, entry: int) -> FileRowView {
    let e = s.entries[entry];
    FileRowView {
        title: e.title,
        selected: is_selected(s.selection, entry, None),
        tunes: e.tunes.map_values(|t: TuneView| tune_row(s.selection, entry, t)),
    }
}

/// Whether a file is selected with the given tune, or as a whole.
fn selection_is(selection: &Option<Selection>, entry: usize, tune: Option<u32>) -> (r: bool)
    ensures
        r == is_selected(*selection, entry as int, tune),
{
    match selection {
        Some(sel) => sel.entry == entry && match (sel.tune, tune) {
            (Some(a), Some(b)) => a == b,
            (None, None) => true,
            _ => false,
        },
        None => false,
    }
}

/// The row of the entry at a place, if there is one.
pub fn file_row(app: &App, entry: usize) -> (row: Option<FileRow>)
    ensures
        match row {
            Some(r) => entry < app@.entries.len() && r@ == row_of(app@, entry as int),
            None => entry >= app@.entries.len(),
        },
{
    if entry >= app.entries.len() {
        return None;
    }
    let e = &app.entries[entry];
    assert(app@.entries[entry as int] == e@);
    let mut tunes: Vec<TuneRow> = Vec::new();
    let mut i: usize = 0;
    while i < e.tunes.len()
        invariant
            i <= e.tunes@.len(),
            tunes@.len() == i,
            forall|j: int|
                0 <= j < i ==> (#[trigger] tunes@[j])@ == tune_row(
                    app.selection,
                    entry as int,
                    e.tunes@[j]@,
                ),
        decreases e.tunes@.len() - i,
    {
        let number: u32 = e.tunes[i].number;
        let mut label = String::new();
        push_decimal(&mut label, number as u64);
        label.append(". ");
        label.append(e.tunes[i].title.as_str());
        assert(label@ =~= decimal(number as nat) + ". "@ + e.tunes@[i as int].title@);
        tunes.push(TuneRow { number, label, selected: selection_is(&app.selection, entry, Some(number)) });
        i += 1;
    }
    let row = FileRow {
        title: e.title.clone(),
        selected: selection_is(&app.selection, entry, None),
        tunes,
    };
    assert(row@.tunes =~= row_of(app@, entry as int).tunes);
    Some(row)
}

/// The label of a directory.
pub fn dir_label(node: &DirNode) -> (label: String)
    ensures
        label@ == node.name@ + "/"@,
{
    let mut label = node.name.clone();
    label.append("/");
    label
}

/// What stands in place of an empty file tree.
pub fn tree_label(app: &App) -> (label: Option<String>)
    ensures
        text_view(label) == if app@.entries.len() > 0 {
            None
        } else if app@.scanning {
            Some("Scanning…"@)
        } else {
            Some("(open a folder of .ly / .abc files)"@)
        },
{
    if app.entries.len() > 0 {
        None
    } else if app.scanning {
        Some(String::from_str("Scanning…"))
    } else {
        Some(String::from_str("(open a folder of .ly / .abc files)"))
    }
}

/// What stands in place of a score that is not there: a hint before anything was rendered, a
/// complaint about an empty render.
pub fn score_label(app: &App) -> (label: Option<String>)
    ensures
        text_view(label) == match app@.output {
            None => Some("(select a file to render the score)"@),
            Some(output) => if output.pages.len() == 0 {
                Some("The engraver produced no output."@)
            } else {
                None
            },
        },
{
    match &app.output {
        None => Some(String::from_str("(select a file to render the score)")),
        Some(output) => if output.pages.is_empty() {
            Some(String::from_str("The engraver produced no output."))
        } else {
            None
        },
    }
}

/// The text of the status bar.
pub fn status_label(app: &App) -> (label: String)
    ensures
        label@ == if app@.status.len() == 0 {
            "Ready"@
        } else {
            app@.status
        },
{
    if app.status.as_str().is_empty() {
        String::from_str("Ready")
    } else {
        app.status.clone()
    }
}

/// What is under way.
pub fn busy_label(app: &App) -> (label: Option<String>)
    ensures
        text_view(label) == if app@.scanning {
            Some("scanning…"@)
        } else if app@.rendering {
            Some("rendering…"@)
        } else {
            None
        },
{
    if app.scanning {
        Some(String::from_str("scanning…"))
    } else if app.rendering {
        Some(String::from_str("rendering…"))
    } else {
        None
    }
}

/// Whether the engraver messages are shown open: after a render that failed.
pub fn messages_open(app: &App) -> (open: bool)
    ensures
        open == match app@.output {
            Some(output) => !output.ok,
            None => false,
        },
{
    match &app.output {
        Some(output) => !output.ok,
        None => false,
    }
}

/// Which of the external tools were found.
#[derive(Clone, Copy)]
pub struct ToolsFound {
    pub lilypond: bool,
    pub abcm2ps: bool,
    pub rsvg_convert: bool,
}

/// The name of a package that is to be installed, unless its tool was found.
pub open spec fn wanted(found: bool, package: Seq<char>) -> Seq<Seq<char>> {
    if found {
        seq![]
    } else {
        seq![package]
    }
}

/// The packages whose tools were not found.
pub open spec fn missing_packages(found: ToolsFound) -> Seq<Seq<char>> {
    wanted(found.lilypond, "lilypond"@) + wanted(found.abcm2ps, "abcm2ps"@) + wanted(
        found.rsvg_convert,
        "librsvg2-bin"@,
    )
}

/// Texts in a row, separated by commas.
pub open spec fn joined(list: Seq<Seq<char>>) -> Seq<char>
    decreases list.len(),
{
    if list.len() == 0 {
        seq![]
    } else if list.len() == 1 {
        list[0]
    } else {
        joined(list.drop_last()) + ", "@ + list.last()
    }
}

/// The warning about missing tools, if any is missing.
pub open spec fn tool_warning(found: ToolsFound) -> Option<Seq<char>> {
    let missing = missing_packages(found);
    if missing.len() == 0 {
        None
    } else {
        Some("Missing: "@ + joined(missing) + " — install to render scores/titles"@)
    }
}

/// Puts texts in a row, separated by commas.
pub fn join(list: &Vec<String>) -> (text: String)
    ensures
        text@ == joined(texts(list@)),
{
    let ghost all = texts(list@);
    let mut text = String::new();
    let mut i: usize = 0;
    assert(all.take(0) =~= seq![]);
    while i < list.len()
        invariant
            all == texts(list@),
            i <= list@.len(),
            text@ == joined(all.take(i as int)),
        decreases list@.len() - i,
    {
        assert(all.take(i + 1).drop_last() =~= all.take(i as int));
        assert(all.take(i + 1).last() == list@[i as int]@);
        if i > 0 {
            text.append(", ");
        } else {
            assert(text@ + list@[0]@ =~= list@[0]@);
        }
        text.append(list[i].as_str());
        i += 1;
    }
    assert(all.take(i as int) =~= all);
    text
}

/// The warning that names the packages of the external tools that were not found, so that a
/// broken install is visible instead of producing silently-blank output.
pub fn missing_tools(found: ToolsFound) -> (warning: Option<String>)
    ensures
        text_view(warning) == tool_warning(found),
{
    let mut missing: Vec<String> = Vec::new();
    if !found.lilypond {
        missing.push(String::from_str("lilypond"));
    }
    if !found.abcm2ps {
        missing.push(String::from_str("abcm2ps"));
    }
    if !found.rsvg_convert {
        missing.push(String::from_str("librsvg2-bin"));
    }
    assert(texts(missing@) =~= missing_packages(found));
    if missing.is_empty() {
        return None;
    }
    let mut warning = String::from_str("Missing: ");
    warning.append(join(&missing).as_str());
    warning.append(" — install to render scores/titles");
    Some(warning)
}

/// The row of a file shows its whole title and every tune of it, in order, each by its number and
/// its whole title. Exactly what is selected is marked.
pub proof fn law_row_of_file(app: App, entry: usize, row: Option<FileRow>)
    requires
        call_ensures(file_row, (&app, entry), row),
    ensures
        row is Some <==> entry < app.entries@.len(),
        row is Some ==> {
            let e = app.entries@[entry as int];
            &&& row->0.title@ == e.title@
            &&& row->0.selected <==> app.selection is Some && app.selection->0.entry == entry
                && app.selection->0.tune is None
            &&& row->0.tunes@.len() == e.tunes@.len()
            &&& forall|i: int|
                0 <= i < e.tunes@.len() ==> {
                    &&& (#[trigger] row->0.tunes@[i]).number == e.tunes@[i].number
                    &&& row->0.tunes@[i].label@ == decimal(e.tunes@[i].number as nat) + ". "@ + e.tunes@[i].title@
                    &&& row->0.tunes@[i].selected <==> app.selection is Some && app.selection->0.entry == entry
                        && app.selection->0.tune == Some(e.tunes@[i].number)
                }
        },
{
    assert(app@.entries.len() == app.entries@.len());
    if row is Some {
        let e = app.entries@[entry as int];
        assert(app@.entries[entry as int] == e@);
        let rows = tune_row_views(row->0.tunes@);
        assert(rows.len() == row->0.tunes@.len());
        assert(e@.tunes.len() == e.tunes@.len());
        assert forall|i: int| 0 <= i < e.tunes@.len() implies {
            &&& (#[trigger] row->0.tunes@[i]).number == e.tunes@[i].number
            &&& row->0.tunes@[i].label@ == decimal(e.tunes@[i].number as nat) + ". "@ + e.tunes@[i].title@
            &&& row->0.tunes@[i].selected <==> app.selection is Some && app.selection->0.entry == entry
                && app.selection->0.tune == Some(e.tunes@[i].number)
        } by {
            assert(rows[i] == row->0.tunes@[i]@);
            assert(e@.tunes[i] == e.tunes@[i]@);
        }
    }
}

/// A directory is shown by its whole name.
pub proof fn law_directory_label(node: DirNode, label: String)
    requires
        call_ensures(dir_label, (&node,), label),
    ensures
        label@.len() == node.name@.len() + 1,
        label@.take(node.name@.len() as int) == node.name@,
        label@.last() == '/',
{
    reveal_strlit("/");
    assert(label@.take(node.name@.len() as int) =~= node.name@);
}

/// The status is shown whole; without one the program is ready.
pub proof fn law_status_shown(app: App, label: String)
    requires
        call_ensures(status_label, (&app,), label),
    ensures
        app.status@.len() > 0 ==> label@ == app.status@,
        app.status@.len() == 0 ==> label@ == "Ready"@,
{
}

/// What is under way is shown, a scan before a render; hints stand in place of what is not there.
pub proof fn law_hints_shown(app: App, busy: Option<String>, tree: Option<String>, score: Option<String>, open: bool)
    requires
        call_ensures(busy_label, (&app,), busy),
        call_ensures(tree_label, (&app,), tree),
        call_ensures(score_label, (&app,), score),
        call_ensures(messages_open, (&app,), open),
    ensures
        busy is Some <==> app.scanning || app.rendering,
        tree is None <==> app.entries@.len() > 0,
        score is None <==> app.output is Some && app.output->0.pages@.len() > 0,
        open <==> app.output is Some && !app.output->0.ok,
{
    assert(app@.entries.len() == app.entries@.len());
    if app.output is Some {
        assert(app@.output->0.pages.len() == app.output->0.pages@.len());
    }
}

/// How long texts in a row are: their own lengths, and two characters between each.
pub open spec fn joined_len(list: Seq<Seq<char>>) -> nat
    decreases list.len(),
{
    if list.len() == 0 {
        0
    } else if list.len() == 1 {
        list[0].len()
    } else {
        joined_len(list.drop_last()) + 2 + list.last().len()
    }
}

/// Every text of a row occurs in it, and nothing else does but commas between them.
proof fn lemma_joined(list: Seq<Seq<char>>, i: int)
    requires
        0 <= i < list.len(),
    ensures
        joined(list).len() == joined_len(list),
        exists|k: int|
            0 <= k <= joined(list).len() - list[i].len() && #[trigger] joined(list).subrange(k, k + list[i].len())
                == list[i],
    decreases list.len(),
{
    reveal_strlit(", ");
    let all = joined(list);
    let item = list[i];
    if list.len() == 1 {
        assert(all.subrange(0, 0int + item.len()) =~= item);
    } else {
        let init = list.drop_last();
        let front = joined(init);
        if i < init.len() {
            lemma_joined(init, i);
            assert(init[i] == item);
            let k = choose|k: int|
                0 <= k <= front.len() - item.len() && #[trigger] front.subrange(k, k + item.len()) == item;
            assert(all.subrange(k, k + item.len()) =~= front.subrange(k, k + item.len()));
        } else {
            lemma_joined(init, 0);
            let k = front.len() as int + 2;
            assert(all.subrange(k, k + item.len()) =~= item);
        }
    }
}

/// Texts that are put in a row all occur in it, whole, and nothing is added but a comma and a
/// blank between each two.
pub proof fn law_all_joined(list: &Vec<String>, text: String, i: int)
    requires
        call_ensures(join, (list,), text),
        0 <= i < list@.len(),
    ensures
        text@.len() == joined_len(texts(list@)),
        exists|k: int|
            0 <= k <= text@.len() - list@[i]@.len() && #[trigger] text@.subrange(k, k + list@[i]@.len()) == list@[i]@,
{
    assert(texts(list@)[i] == list@[i]@);
    lemma_joined(texts(list@), i);
}

/// There is a warning exactly if a tool is missing, and it names the package of every missing tool.
pub proof fn law_missing_tools_named(found: ToolsFound, warning: Option<String>, package: Seq<char>)
    requires
        call_ensures(missing_tools, (found,), warning),
        ({
            ||| package == "lilypond"@ && !found.lilypond
            ||| package == "abcm2ps"@ && !found.abcm2ps
            ||| package == "librsvg2-bin"@ && !found.rsvg_convert
            ||| found.lilypond && found.abcm2ps && found.rsvg_convert
        }),
    ensures
        warning is None <==> found.lilypond && found.abcm2ps && found.rsvg_convert,
        warning is Some ==> exists|k: int|
            0 <= k <= warning->0@.len() - package.len() && #[trigger] warning->0@.subrange(k, k + package.len())
                == package,
{
    let list = missing_packages(found);
    if warning is Some {
        let i = if package == "lilypond"@ && !found.lilypond {
            0
        } else if package == "abcm2ps"@ && !found.abcm2ps {
            lemma_missing_count(found);
            wanted(found.lilypond, "lilypond"@).len() as int
        } else {
            lemma_missing_count(found);
            list.len() - 1
        };
        lemma_missing_count(found);
        assert(list[i] == package);
        lemma_joined(list, i);
        lemma_named("Missing: "@, joined(list), " — install to render scores/titles"@, package);
    } else {
        lemma_missing_count(found);
    }
}

/// Which packages are missing, by their places.
proof fn lemma_missing_count(found: ToolsFound)
    ensures
        ({
            let list = missing_packages(found);
            let a = wanted(found.lilypond, "lilypond"@).len() as int;
            let b = wanted(found.abcm2ps, "abcm2ps"@).len() as int;
            let c = wanted(found.rsvg_convert, "librsvg2-bin"@).len() as int;
            &&& list.len() == a + b + c
            &&& !found.lilypond ==> list[0] == "lilypond"@
            &&& !found.abcm2ps ==> list[a] == "abcm2ps"@
            &&& !found.rsvg_convert ==> list[list.len() - 1] == "librsvg2-bin"@
        }),
{
}

/// What occurs in a text occurs in a longer one around it.
proof fn lemma_named(front: Seq<char>, row: Seq<char>, back: Seq<char>, package: Seq<char>)
    requires
        exists|k: int|
            0 <= k <= row.len() - package.len() && #[trigger] row.subrange(k, k + package.len()) == package,
    ensures
        exists|k: int|
            0 <= k <= (front + row + back).len() - package.len() && #[trigger] (front + row + back).subrange(
                k,
                k + package.len(),
            ) == package,
{
    let all = front + row + back;
    let k = choose|k: int|
        0 <= k <= row.len() - package.len() && #[trigger] row.subrange(k, k + package.len()) == package;
    let m = front.len() + k;
    assert(all.subrange(m, m + package.len()) =~= row.subrange(k, k + package.len()));
}

} // verus!
