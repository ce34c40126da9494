//! The state of the browser: which folder is open, what is selected, what is in the editor and
//! what is rendered. Each user action and each finished piece of background work is a step
//! from one state to the next; what has to happen outside (a scan, a read, a render, a write)
//! is handed back as a request.

use std::path::PathBuf;

use vstd::prelude::*;
use vstd::utf8::{decode_utf8_encode_utf8, encode_utf8, valid_utf8};

use crate::engraver::RenderRequest;
use crate::index::{entries_of, entry_keys, entry_views, EntryView};
use crate::index::{scan, FileEntry, SourceFile};
use crate::model::{page_views, OutputView, PageView};
use crate::model::{Page, RenderOutput};
use crate::order::sorted_by;
use crate::path::{current_dir, display, holder, met_as, same_path};
use crate::path::{
    has_parent, is_current_dir, is_holder, is_met_as, last_name, path_components, path_shown, text_view, texts, PartView,
};
use crate::text::{chars_of, from_utf8_lossy, push_decimal, string_of, trim};
use crate::text::{all_white, bare, decimal, lemma_trimmed, lossy_utf8, trimmed};
use crate::tree::{build_tree, DirNode};
use crate::tree::{empty_dir, names_below, root_name, tree_of, TreeView};
use crate::worker::{Job, RenderResult};

verus! {

/// Idle time in milliseconds after the last keystroke before a live re-render fires.
pub const DEBOUNCE_MS: u64 = 550;

/// The selected file, by its place among the entries, and the selected tune in it; without a
/// tune the whole file is meant.
#[derive(Clone, Copy)]
pub struct Selection {
    pub entry: usize,
    pub tune: Option<u32>,
}

/// What to do once a folder scan finishes.
pub enum AfterScan {
    /// Manual "Open Folder": leave nothing selected.
    Nothing,
    /// Auto-select and render the first entry (opening a directory on startup).
    SelectFirst,
    /// Select and render a specific file (opening a file path directly).
    SelectPath(PathBuf),
    /// Rescan: re-locate the previously selected file by path (no re-render).
    Reselect(Option<(PathBuf, Option<u32>)>),
}

/// A folder scan to be done.
pub struct ScanRequest {
    pub seq: u64,
    pub folder: PathBuf,
    pub after: AfterScan,
}

/// Result of a folder scan.
pub struct ScanResult {
    pub seq: u64,
    pub folder: PathBuf,
    pub entries: Vec<FileEntry>,
    pub tree: DirNode,
    pub after: AfterScan,
}

/// A folder scan to be started, and the images that are no longer shown.
pub struct ScanStart {
    pub request: ScanRequest,
    pub forget: Vec<String>,
}

/// A file to be read into the editor and rendered; `force` bypasses the render cache.
pub struct ReadRequest {
    pub path: PathBuf,
    pub force: bool,
}

/// A file to be written with the text of the editor.
pub struct WriteRequest {
    pub path: PathBuf,
    pub source: String,
}

/// What a path that is to be opened leads to.
#[derive(Clone, Copy, Debug, PartialEq, Eq, Structural)]
pub enum PathKind {
    Dir,
    File,
    Missing,
}

/// The state of the browser.
pub struct App {
    pub scanning: bool,
    pub scan_seq: u64,
    pub folder: Option<PathBuf>,
    pub entries: Vec<FileEntry>,
    pub tree: DirNode,
    pub selection: Option<Selection>,
    pub source: String,
    pub source_loaded: bool,
    pub output: Option<RenderOutput>,
    pub messages: String,
    pub next_id: u64,
    pub latest_id: u64,
    pub rendering: bool,
    pub status: String,
    pub tool_warning: Option<String>,
    pub pending_edit: bool,
}

/// What an [`App`] holds.
pub struct AppView {
    pub scanning: bool,
    pub scan_seq: u64,
    pub folder: Option<PathBuf>,
    pub entries: Seq<EntryView>,
    pub tree: TreeView,
    pub selection: Option<Selection>,
    pub source: Seq<char>,
    pub source_loaded: bool,
    pub output: Option<OutputView>,
    pub messages: Seq<char>,
    pub next_id: u64,
    pub latest_id: u64,
    pub rendering: bool,
    pub status: Seq<char>,
    pub tool_warning: Option<Seq<char>>,
    pub pending_edit: bool,
}

/// The contents of an optional output.
pub open spec fn output_view(output: Option<RenderOutput>) -> Option<OutputView> {
    match output {
        Some(o) => Some(o@),
        None => None,
    }
}

impl View for App {
    type V = AppView;

    open spec fn view(&self) -> AppView {
        AppView {
            scanning: self.scanning,
            scan_seq: self.scan_seq,
            folder: self.folder,
            entries: entry_views(self.entries@),
            tree: self.tree.tree(),
            selection: self.selection,
            source: self.source@,
            source_loaded: self.source_loaded,
            output: output_view(self.output),
            messages: self.messages@,
            next_id: self.next_id,
            latest_id: self.latest_id,
            rendering: self.rendering,
            status: self.status@,
            tool_warning: text_view(self.tool_warning),
            pending_edit: self.pending_edit,
        }
    }
}

/// The state on startup.
pub open spec fn initial_state(tool_warning: Option<Seq<char>>) -> AppView {
    AppView {
        scanning: false,
        scan_seq: 0,
        folder: None,
        entries: seq![],
        tree: empty_dir(seq![]),
        selection: None,
        source: seq![],
        source_loaded: false,
        output: None,
        messages: seq![],
        next_id: 0,
        latest_id: 0,
        rendering: false,
        status: seq![],
        tool_warning,
        pending_edit: false,
    }
}

/// Whether another scan can be numbered. Opening another folder takes up a job number, too.
pub open spec fn can_scan(s: AppView, reset: bool) -> bool {
    s.scan_seq < u64::MAX && (reset ==> s.next_id < u64::MAX)
}

/// Whether a list of pages shows an image.
pub open spec fn shows(pages: Seq<PageView>, uri: Seq<char>) -> bool {
    exists|i: int| 0 <= i < pages.len() && (#[trigger] pages[i]).uri == uri
}

/// The images of some pages that other pages do not show.
pub open spec fn dropped(old_pages: Seq<PageView>, new_pages: Seq<PageView>) -> Seq<Seq<char>>
    decreases old_pages.len(),
{
    if old_pages.len() == 0 {
        seq![]
    } else {
        let uri = old_pages.last().uri;
        let before = dropped(old_pages.drop_last(), new_pages);
        if shows(new_pages, uri) {
            before
        } else {
            before.push(uri)
        }
    }
}

/// The pages of an optional output.
pub open spec fn pages_of(output: Option<OutputView>) -> Seq<PageView> {
    match output {
        Some(o) => o.pages,
        None => seq![],
    }
}

/// The images that are no longer shown when one output takes the place of another.
pub open spec fn forgotten(old_output: Option<OutputView>, new_output: Option<OutputView>) -> Seq<
    Seq<char>,
> {
    dropped(pages_of(old_output), pages_of(new_output))
}

/// The state after a scan was started. Opening another folder clears the view and makes a
/// render that is still under way obsolete.
pub open spec fn scan_started(s: AppView, folder: PathBuf, reset: bool) -> AppView {
    let t = if reset {
        AppView {
            selection: None,
            output: None,
            messages: seq![],
            source: seq![],
            source_loaded: false,
            entries: seq![],
            tree: empty_dir(seq![]),
            next_id: (s.next_id + 1) as u64,
            latest_id: (s.next_id + 1) as u64,
            rendering: false,
            ..s
        }
    } else {
        s
    };
    AppView {
        scan_seq: (s.scan_seq + 1) as u64,
        scanning: true,
        status: "Scanning "@ + path_shown(folder) + "…"@,
        ..t
    }
}

/// What is handed back when a scan is started.
pub open spec fn starts_scan(
    s: AppView,
    start: ScanStart,
    folder: PathBuf,
    reset: bool,
    after: AfterScan,
) -> bool {
    &&& start.request == (ScanRequest { seq: (s.scan_seq + 1) as u64, folder, after })
    &&& texts(start.forget@) == if reset {
        forgotten(s.output, None)
    } else {
        seq![]
    }
}

/// The place of the first entry with a path; the number of entries if there is none.
pub open spec fn find_entry(entries: Seq<EntryView>, path: Seq<PartView>) -> int
    decreases entries.len(),
{
    if entries.len() == 0 || path_components(entries[0].path) == path {
        0
    } else {
        1 + find_entry(entries.drop_first(), path)
    }
}

/// The entry that is selected.
pub open spec fn selected_entry(s: AppView) -> Option<EntryView> {
    match s.selection {
        Some(sel) => if sel.entry < s.entries.len() {
            Some(s.entries[sel.entry as int])
        } else {
            None
        },
        None => None,
    }
}

/// The state after an entry was selected.
pub open spec fn selected(s: AppView, entry: int, tune: Option<u32>) -> AppView {
    if 0 <= entry < s.entries.len() {
        AppView { selection: Some(Selection { entry: entry as usize, tune }), ..s }
    } else {
        s
    }
}

/// The read that follows the selection of an entry.
pub open spec fn selected_read(s: AppView, entry: int) -> Option<ReadRequest> {
    if 0 <= entry < s.entries.len() {
        Some(ReadRequest { path: s.entries[entry].path, force: false })
    } else {
        None
    }
}

/// The number of the first tune of the first entry.
pub open spec fn first_tune(entries: Seq<EntryView>) -> Option<u32> {
    if entries.len() > 0 && entries[0].tunes.len() > 0 {
        Some(entries[0].tunes[0].number)
    } else {
        None
    }
}

/// The selection of a file that is looked for by its path.
pub open spec fn reselected(
    entries: Seq<EntryView>,
    prev: Option<(PathBuf, Option<u32>)>,
) -> Option<Selection> {
    match prev {
        Some((path, tune)) => {
            let i = find_entry(entries, path_components(path));
            if i < entries.len() {
                Some(Selection { entry: i as usize, tune })
            } else {
                None
            }
        },
        None => None,
    }
}

/// The selected file and tune, by path, as a rescan remembers them.
pub open spec fn remembered(s: AppView) -> Option<(PathBuf, Option<u32>)> {
    match selected_entry(s) {
        Some(e) => Some((e.path, s.selection->0.tune)),
        None => None,
    }
}

/// The state with the entries of a finished scan.
pub open spec fn scan_listed(s: AppView, r: ScanResult) -> AppView {
    AppView {
        scanning: false,
        entries: entry_views(r.entries@),
        tree: r.tree.tree(),
        status: decimal(r.entries@.len()) + " file(s) in "@ + path_shown(r.folder),
        folder: Some(r.folder),
        ..s
    }
}

/// The state after a scan was applied: a superseded one changes nothing.
pub open spec fn scan_applied(s: AppView, r: ScanResult) -> AppView {
    if r.seq != s.scan_seq {
        s
    } else {
        let t = scan_listed(s, r);
        match r.after {
            AfterScan::Nothing => t,
            AfterScan::SelectFirst => selected(t, 0, first_tune(t.entries)),
            AfterScan::SelectPath(path) => selected(
                t,
                find_entry(t.entries, path_components(path)),
                None,
            ),
            AfterScan::Reselect(prev) => AppView { selection: reselected(t.entries, prev), ..t },
        }
    }
}

/// The read that follows a scan.
pub open spec fn scan_read(s: AppView, r: ScanResult) -> Option<ReadRequest> {
    if r.seq != s.scan_seq {
        None
    } else {
        let t = scan_listed(s, r);
        match r.after {
            AfterScan::Nothing => None,
            AfterScan::SelectFirst => selected_read(t, 0),
            AfterScan::SelectPath(path) => selected_read(
                t,
                find_entry(t.entries, path_components(path)),
            ),
            AfterScan::Reselect(_) => None,
        }
    }
}

/// The state after a file was read into the editor. A file that cannot be read leaves the
/// text of the editor alone.
pub open spec fn source_read(s: AppView, path: PathBuf, read: Result<Vec<u8>, String>) -> AppView {
    match read {
        Ok(bytes) => AppView { source: lossy_utf8(bytes@), source_loaded: true, ..s },
        Err(error) => AppView {
            status: "Cannot read "@ + path_shown(path) + ": "@ + error@,
            source_loaded: false,
            ..s
        },
    }
}

/// Whether a render can be submitted: its job can be numbered, if there is one.
pub open spec fn can_submit(s: AppView) -> bool {
    selected_entry(s) is Some ==> s.next_id < u64::MAX
}

/// The state after a render was submitted, if a file is selected.
pub open spec fn render_submitted(s: AppView) -> AppView {
    if selected_entry(s) is Some {
        AppView {
            next_id: (s.next_id + 1) as u64,
            latest_id: (s.next_id + 1) as u64,
            rendering: true,
            ..s
        }
    } else {
        s
    }
}

/// Whether a directory is the one in which a file is engraved: the directory that holds it.
pub open spec fn is_base_dir(dir: PathBuf, file: PathBuf) -> bool {
    if has_parent(path_components(file)) {
        is_holder(dir, file)
    } else {
        is_current_dir(dir)
    }
}

/// Whether a started scan is that of the folder that holds a file, with the file to be selected
/// under the path by which the walk meets it.
pub open spec fn opens_file(s: AppView, start: ScanStart, path: PathBuf) -> bool {
    let folder = start.request.folder;
    &&& is_holder(folder, path)
    &&& start.request.after is SelectPath
    &&& is_met_as(start.request.after->SelectPath_0, folder, path)
    &&& starts_scan(s, start, folder, true, start.request.after)
}

/// Whether a job renders what is in the editor, for the file and tune that are selected.
pub open spec fn submits(s: AppView, force: bool, job: Option<Job>) -> bool {
    match (job, selected_entry(s)) {
        (Some(j), Some(e)) => {
            &&& j.id == s.next_id + 1
            &&& j.req.format == e.format
            &&& j.req.source@ == s.source
            &&& j.req.tune == s.selection->0.tune
            &&& j.req.force == force
            &&& is_base_dir(j.req.base_dir, e.path)
        },
        (None, None) => true,
        _ => false,
    }
}

/// Whether saving writes a file: one is selected and the text of the editor was loaded.
pub open spec fn can_write(s: AppView) -> bool {
    s.source_loaded && selected_entry(s) is Some
}

/// The state after the text of the editor was asked to be saved.
pub open spec fn save_asked(s: AppView) -> AppView {
    if s.selection is None {
        AppView { status: "Nothing selected to save"@, ..s }
    } else if !s.source_loaded {
        AppView { status: "Refusing to save: the file was not loaded successfully"@, ..s }
    } else {
        s
    }
}

/// The state after a finished render: only the newest job counts.
pub open spec fn render_absorbed(s: AppView, result: RenderResult) -> AppView {
    if result.id == s.latest_id {
        let output = result.output@;
        AppView {
            rendering: false,
            messages: trimmed(output.diagnostics),
            status: if output.ok {
                "Rendered "@ + decimal(output.pages.len()) + " page(s)"@
            } else {
                "Render failed — see messages below"@
            },
            output: Some(output),
            ..s
        }
    } else {
        s
    }
}

/// Whether the counters agree: the newest job is the last one that was numbered.
pub open spec fn counters_agree(s: AppView) -> bool {
    s.latest_id == s.next_id
}

/// An image is forgotten exactly if it was shown and is shown no longer.
pub proof fn law_forgets_what_is_gone(
    old_output: Option<OutputView>,
    new_output: Option<OutputView>,
    uri: Seq<char>,
)
    ensures
        forgotten(old_output, new_output).contains(uri) <==> shows(pages_of(old_output), uri) && !shows(
            pages_of(new_output),
            uri,
        ),
{
    lemma_dropped(pages_of(old_output), pages_of(new_output), uri);
}

/// A render that was superseded is ignored: once a newer job is submitted, the result of an
/// older one changes nothing.
pub proof fn law_superseded_render_ignored(s: AppView, result: RenderResult)
    requires
        counters_agree(s),
        can_submit(s),
        selected_entry(s) is Some,
        result.id <= s.next_id,
    ensures
        render_absorbed(render_submitted(s), result) == render_submitted(s),
{
}

/// Ids rise: a new job, and a newly opened folder, get a number above all earlier ones, and the
/// newest job stays the last one that was numbered.
pub proof fn law_ids_rise(s: AppView, folder: PathBuf)
    requires
        counters_agree(s),
        can_scan(s, true),
    ensures
        selected_entry(s) is Some ==> render_submitted(s).latest_id > s.latest_id,
        scan_started(s, folder, true).latest_id > s.latest_id,
        scan_started(s, folder, true).scan_seq > s.scan_seq,
        scan_started(s, folder, false).scan_seq > s.scan_seq,
        counters_agree(render_submitted(s)),
        counters_agree(scan_started(s, folder, true)),
        counters_agree(scan_started(s, folder, false)),
{
}

/// Opening another folder drops a render that is still under way.
pub proof fn law_opening_drops_render(s: AppView, folder: PathBuf, result: RenderResult)
    requires
        counters_agree(s),
        can_scan(s, true),
        result.id <= s.next_id,
    ensures
        !scan_started(s, folder, true).rendering,
        render_absorbed(scan_started(s, folder, true), result) == scan_started(s, folder, true),
{
}

/// A scan that was superseded is ignored: once a newer one is started, the result of an older
/// one changes nothing and leads to no read.
pub proof fn law_superseded_scan_ignored(s: AppView, folder: PathBuf, reset: bool, r: ScanResult)
    requires
        can_scan(s, reset),
        r.seq <= s.scan_seq,
    ensures
        scan_applied(scan_started(s, folder, reset), r) == scan_started(s, folder, reset),
        scan_read(scan_started(s, folder, reset), r) is None,
{
}

/// A file that could not be read is not overwritten: the text of the editor stays as it was,
/// and saving writes nothing.
pub proof fn law_unreadable_not_saved(s: AppView, path: PathBuf, error: String)
    ensures
        source_read(s, path, Err(error)).source == s.source,
        !can_write(source_read(s, path, Err(error))),
{
}

/// Nothing can be saved right after another folder was opened.
pub proof fn law_opening_clears(s: AppView, folder: PathBuf)
    ensures
        !can_write(scan_started(s, folder, true)),
        scan_started(s, folder, true).output is None,
        scan_started(s, folder, true).source.len() == 0,
{
}

/// An entry is found at a place that has the path, and at none before.
proof fn lemma_find_entry(entries: Seq<EntryView>, path: Seq<PartView>)
    ensures
        0 <= find_entry(entries, path) <= entries.len(),
        find_entry(entries, path) < entries.len() ==> path_components(
            entries[find_entry(entries, path)].path,
        ) == path,
        forall|i: int|
            0 <= i < find_entry(entries, path) ==> path_components((#[trigger] entries[i]).path) != path,
    decreases entries.len(),
{
    if entries.len() > 0 && path_components(entries[0].path) != path {
        let rest = entries.drop_first();
        lemma_find_entry(rest, path);
        assert forall|i: int| 0 <= i < find_entry(entries, path) implies path_components(
            (#[trigger] entries[i]).path,
        ) != path by {
            if i > 0 {
                assert(rest[i - 1] == entries[i]);
            }
        }
    }
}

/// A rescan cannot misdirect Save: if nothing else was selected meanwhile, the same file is
/// selected after it, with the same tune, if it is still there, and otherwise nothing is.
pub proof fn law_rescan_keeps_file(s: AppView, r: ScanResult)
    requires
        r.seq == s.scan_seq,
        r.entries@.len() <= usize::MAX,
        r.after == AfterScan::Reselect(remembered(s)),
    ensures
        ({
            let t = scan_applied(s, r);
            match selected_entry(s) {
                Some(e) => {
                    let there = exists|i: int|
                        0 <= i < t.entries.len() && path_components((#[trigger] t.entries[i]).path)
                            == path_components(e.path);
                    if there {
                        &&& selected_entry(t) is Some
                        &&& path_components(selected_entry(t)->0.path) == path_components(e.path)
                        &&& t.selection->0.tune == s.selection->0.tune
                    } else {
                        t.selection is None
                    }
                },
                None => t.selection is None,
            }
        }),
{
    if let Some(e) = selected_entry(s) {
        lemma_find_entry(entry_views(r.entries@), path_components(e.path));
    }
}

/// A file that is opened is selected, as a whole, once its folder has been scanned: if the scan
/// lists the name of the file directly in the folder, the entry selected is the one with the
/// components of the folder and that name.
pub proof fn law_opened_file_selected(s: AppView, start: ScanStart, path: PathBuf, r: ScanResult, i: int)
    requires
        opens_file(s, start, path),
        can_scan(s, true),
        last_name(path_components(path)) is Some,
        r.seq == start.request.seq,
        r.folder == start.request.folder,
        r.after == start.request.after,
        r.entries@.len() <= usize::MAX,
        0 <= i < r.entries@.len(),
        path_components(r.entries@[i].path) == path_components(r.folder).push(path_components(path).last()),
    ensures
        ({
            let t = scan_applied(scan_started(s, r.folder, true), r);
            &&& selected_entry(t) is Some
            &&& path_components(selected_entry(t)->0.path) == path_components(r.folder).push(
                path_components(path).last(),
            )
            &&& t.selection->0.tune is None
            &&& scan_read(scan_started(s, r.folder, true), r) == Some(
                ReadRequest { path: selected_entry(t)->0.path, force: false },
            )
        }),
{
    let parts = path_components(path);
    let met = start.request.after->SelectPath_0;
    let ev = entry_views(r.entries@);
    assert(path_components(met) =~= path_components(r.folder).push(parts.last()));
    lemma_find_entry(ev, path_components(met));
    assert(ev[i] == r.entries@[i]@);
}

/// Whether the selection, if there is one, is that of an entry.
pub open spec fn selection_listed(s: AppView) -> bool {
    s.selection is Some ==> selected_entry(s) is Some
}

/// The selection is always that of a listed entry, as long as scans that do not reselect are
/// applied to a cleared view.
pub proof fn law_selection_listed(
    s: AppView,
    entry: usize,
    tune: Option<u32>,
    folder: PathBuf,
    reset: bool,
    r: ScanResult,
)
    requires
        selection_listed(s),
        r.entries@.len() <= usize::MAX,
        r.after is Reselect || s.selection is None,
    ensures
        selection_listed(selected(s, entry as int, tune)),
        selection_listed(scan_started(s, folder, reset)),
        selection_listed(scan_applied(s, r)),
        selection_listed(render_submitted(s)),
{
    match r.after {
        AfterScan::SelectPath(path) => {
            lemma_find_entry(entry_views(r.entries@), path_components(path));
        },
        AfterScan::Reselect(Some((path, _))) => {
            lemma_find_entry(entry_views(r.entries@), path_components(path));
        },
        _ => (),
    }
}

/// An image is dropped exactly if the old pages show it and the new ones do not.
proof fn lemma_dropped(old_pages: Seq<PageView>, new_pages: Seq<PageView>, uri: Seq<char>)
    ensures
        dropped(old_pages, new_pages).contains(uri) <==> shows(old_pages, uri) && !shows(new_pages, uri),
    decreases old_pages.len(),
{
    if old_pages.len() > 0 {
        let init = old_pages.drop_last();
        let before = dropped(init, new_pages);
        let all = dropped(old_pages, new_pages);
        let last = old_pages.last().uri;
        lemma_dropped(init, new_pages, uri);
        assert(shows(old_pages, uri) <==> shows(init, uri) || last == uri) by {
            if shows(init, uri) {
                let i = choose|i: int| 0 <= i < init.len() && (#[trigger] init[i]).uri == uri;
                assert(old_pages[i].uri == uri);
            }
            if last == uri {
                assert(old_pages[old_pages.len() - 1].uri == uri);
            }
            if shows(old_pages, uri) && last != uri {
                let i = choose|i: int| 0 <= i < old_pages.len() && (#[trigger] old_pages[i]).uri == uri;
                assert(init[i].uri == uri);
            }
        }
        if !shows(new_pages, last) {
            assert(all.contains(uri) <==> before.contains(uri) || last == uri) by {
                if before.contains(uri) {
                    assert(all[before.index_of(uri)] == uri);
                }
                if last == uri {
                    assert(all[all.len() - 1] == uri);
                }
                if all.contains(uri) && last != uri {
                    let i = all.index_of(uri);
                    assert(before[i] == uri);
                }
            }
        }
    }
}

/// The first place that has a path is where the entry is found.
proof fn lemma_entry_found(entries: Seq<EntryView>, path: Seq<PartView>, p: int)
    requires
        0 <= p <= entries.len(),
        p < entries.len() ==> path_components(entries[p].path) == path,
        forall|i: int| 0 <= i < p ==> path_components((#[trigger] entries[i]).path) != path,
    ensures
        find_entry(entries, path) == p,
    decreases entries.len(),
{
    if p > 0 {
        let rest = entries.drop_first();
        assert(path_components(entries[0].path) != path);
        assert forall|i: int| 0 <= i < p - 1 implies path_components((#[trigger] rest[i]).path) != path by {
            assert(rest[i] == entries[i + 1]);
        }
        lemma_entry_found(rest, path, p - 1);
    }
}

/// Finds the first entry with a path.
fn position(entries: &Vec<FileEntry>, path: &PathBuf) -> (at: Option<usize>)
    ensures
        match at {
            Some(i) => i < entries@.len() && find_entry(entry_views(entries@), path_components(*path)) == i,
            None => find_entry(entry_views(entries@), path_components(*path)) == entries@.len(),
        },
{
    let ghost ev = entry_views(entries@);
    let mut i: usize = 0;
    while i < entries.len()
        invariant
            ev == entry_views(entries@),
            i <= entries@.len(),
            forall|j: int| 0 <= j < i ==> path_components((#[trigger] ev[j]).path) != path_components(*path),
        decreases entries@.len() - i,
    {
        assert(ev[i as int] == entries@[i as int]@);
        if same_path(&entries[i].path, path) {
            proof {
                lemma_entry_found(ev, path_components(*path), i as int);
            }
            return Some(i);
        }
        i += 1;
    }
    proof {
        lemma_entry_found(ev, path_components(*path), i as int);
    }
    None
}

/// Whether a list of pages shows an image.
fn page_shows(pages: &Vec<Page>, uri: &String) -> (r: bool)
    ensures
        r == shows(page_views(pages@), uri@),
{
    let ghost pv = page_views(pages@);
    let mut i: usize = 0;
    while i < pages.len()
        invariant
            pv == page_views(pages@),
            i <= pages@.len(),
            forall|j: int| 0 <= j < i ==> (#[trigger] pv[j]).uri != uri@,
        decreases pages@.len() - i,
    {
        assert(pv[i as int] == pages@[i as int]@);
        if pages[i].uri == *uri {
            return true;
        }
        i += 1;
    }
    false
}

/// Collects the images of some pages that other pages do not show.
fn dropped_uris(old_pages: &Vec<Page>, new_pages: &Vec<Page>) -> (uris: Vec<String>)
    ensures
        texts(uris@) == dropped(
            page_views(old_pages@),
            page_views(new_pages@),
        ),
{
    let ghost ov = page_views(old_pages@);
    let ghost nv = page_views(new_pages@);
    let mut uris: Vec<String> = Vec::new();
    let mut i: usize = 0;
    assert(ov.take(0) =~= seq![]);
    assert(texts(uris@) =~= seq![]);
    while i < old_pages.len()
        invariant
            ov == page_views(old_pages@),
            nv == page_views(new_pages@),
            i <= old_pages@.len(),
            texts(uris@) == dropped(ov.take(i as int), nv),
        decreases old_pages@.len() - i,
    {
        let ghost before = uris@;
        assert(ov.take(i + 1).drop_last() =~= ov.take(i as int));
        assert(ov.take(i + 1).last() == old_pages@[i as int]@);
        if !page_shows(new_pages, &old_pages[i].uri) {
            let uri = old_pages[i].uri.clone();
            uris.push(uri);
            assert(texts(uris@) =~= texts(before).push(uri@));
        }
        i += 1;
    }
    assert(ov.take(i as int) =~= ov);
    uris
}

/// Scans a folder, given the files met under it.
pub fn scan_folder(request: ScanRequest, files: Vec<SourceFile>) -> (result: ScanResult)
    ensures
        result.seq == request.seq,
        result.folder == request.folder,
        result.after == request.after,
        entry_views(result.entries@) == sorted_by(
            entries_of(files@),
            entry_keys(entries_of(files@)),
        ),
        result.tree.tree() == tree_of(
            root_name(request.folder),
            names_below(request.folder, entry_views(result.entries@)),
        ),
{
    let entries = scan(files);
    let tree = build_tree(&request.folder, entries.as_slice());
    ScanResult { seq: request.seq, folder: request.folder, entries, tree, after: request.after }
}

impl App {
    /// The state on startup.
    pub fn new(tool_warning: Option<String>) -> (app: App)
        ensures
            app@ == initial_state(text_view(tool_warning)),
            counters_agree(app@),
    {
        let app = App {
            scanning: false,
            scan_seq: 0,
            folder: None,
            entries: Vec::new(),
            tree: DirNode::default(),
            selection: None,
            source: String::new(),
            source_loaded: false,
            output: None,
            messages: String::new(),
            next_id: 0,
            latest_id: 0,
            rendering: false,
            status: String::new(),
            tool_warning,
            pending_edit: false,
        };
        assert(entry_views(app.entries@) =~= seq![]);
        app
    }

    /// Whether another scan can be numbered.
    pub fn can_scan(&self, reset: bool) -> (r: bool)
        ensures
            r == can_scan(self@, reset),
    {
        self.scan_seq < u64::MAX && (!reset || self.next_id < u64::MAX)
    }

    /// Whether a render can be submitted.
    pub fn can_submit(&self) -> (r: bool)
        ensures
            r == can_submit(self@),
    {
        match self.selection {
            Some(sel) => sel.entry >= self.entries.len() || self.next_id < u64::MAX,
            None => true,
        }
    }

    /// Replace the rendered output, and tell which images are no longer shown, so that they
    /// can be freed.
    pub fn replace_output(&mut self, new: Option<RenderOutput>) -> (forget: Vec<String>)
        ensures
            final(self)@ == (AppView { output: output_view(new), ..old(self)@ }),
            texts(forget@) == forgotten(old(self)@.output, output_view(new)),
    {
        let none: Vec<Page> = Vec::new();
        assert(page_views(none@) =~= seq![]);
        let forget = match (&self.output, &new) {
            (Some(old_output), Some(new_output)) => dropped_uris(&old_output.pages, &new_output.pages),
            (Some(old_output), None) => dropped_uris(&old_output.pages, &none),
            (None, _) => Vec::new(),
        };
        assert(self.output is None ==> texts(forget@) =~= forgotten(self@.output, output_view(new)));
        self.output = new;
        forget
    }

    /// Start scanning `folder`. `reset` clears the current view immediately (a new folder);
    /// without it the view is kept while the list refreshes.
    pub fn start_scan(&mut self, folder: PathBuf, reset: bool, after: AfterScan) -> (start: ScanStart)
        requires
            can_scan(old(self)@, reset),
        ensures
            final(self)@ == scan_started(old(self)@, folder, reset),
            starts_scan(old(self)@, start, folder, reset, after),
            counters_agree(old(self)@) ==> counters_agree(final(self)@),
    {
        let mut forget: Vec<String> = Vec::new();
        assert(texts(forget@) =~= seq![]);
        if reset {
            self.selection = None;
            forget = self.replace_output(None);
            self.messages = String::new();
            self.source = String::new();
            self.source_loaded = false;
            self.entries = Vec::new();
            self.tree = DirNode::default();
            // Drop any in-flight render from the previous folder.
            self.next_id += 1;
            self.latest_id = self.next_id;
            self.rendering = false;
            assert(entry_views(self.entries@) =~= seq![]);
        }
        self.scan_seq += 1;
        self.scanning = true;
        let mut status = String::from_str("Scanning ");
        status.append(display(&folder).as_str());
        status.append("…");
        self.status = status;
        ScanStart { request: ScanRequest { seq: self.scan_seq, folder, after }, forget }
    }

    /// Open a folder, or a single file (opens its parent folder and selects it).
    pub fn open_path(&mut self, path: PathBuf, kind: PathKind) -> (start: Option<ScanStart>)
        requires
            !(kind is Missing) ==> can_scan(old(self)@, true),
        ensures
            match kind {
                PathKind::Dir => {
                    &&& start is Some
                    &&& final(self)@ == scan_started(old(self)@, path, true)
                    &&& starts_scan(old(self)@, start->0, path, true, AfterScan::SelectFirst)
                },
                PathKind::File => if has_parent(path_components(path)) {
                    &&& start is Some
                    &&& opens_file(old(self)@, start->0, path)
                    &&& final(self)@ == scan_started(old(self)@, start->0.request.folder, true)
                } else {
                    start is None && final(self)@ == old(self)@
                },
                PathKind::Missing => {
                    &&& start is None
                    &&& final(self)@ == (AppView {
                        status: "Path not found: "@ + path_shown(path),
                        ..old(self)@
                    })
                },
            },
            counters_agree(old(self)@) ==> counters_agree(final(self)@),
    {
        match kind {
            PathKind::Dir => Some(self.start_scan(path, true, AfterScan::SelectFirst)),
            PathKind::File => match holder(&path) {
                Some(folder) => {
                    let met = met_as(&folder, &path);
                    Some(self.start_scan(folder, true, AfterScan::SelectPath(met)))
                },
                None => None,
            },
            PathKind::Missing => {
                let mut status = String::from_str("Path not found: ");
                status.append(display(&path).as_str());
                self.status = status;
                None
            },
        }
    }

    /// Refresh the list of the open folder. The selected file is remembered by path, so that
    /// re-sorting can't misdirect Save.
    pub fn rescan(&mut self) -> (start: Option<ScanStart>)
        requires
            old(self)@.folder is Some ==> can_scan(old(self)@, false),
        ensures
            match old(self)@.folder {
                Some(folder) => {
                    &&& start is Some
                    &&& final(self)@ == scan_started(old(self)@, folder, false)
                    &&& starts_scan(
                        old(self)@,
                        start->0,
                        folder,
                        false,
                        AfterScan::Reselect(remembered(old(self)@)),
                    )
                },
                None => start is None && final(self)@ == old(self)@,
            },
            counters_agree(old(self)@) ==> counters_agree(final(self)@),
    {
        let folder = match &self.folder {
            Some(folder) => folder.clone(),
            None => {
                return None;
            },
        };
        let prev: Option<(PathBuf, Option<u32>)> = match self.selection {
            Some(sel) => {
                if sel.entry < self.entries.len() {
                    assert(self@.entries[sel.entry as int] == self.entries@[sel.entry as int]@);
                    Some((self.entries[sel.entry].path.clone(), sel.tune))
                } else {
                    None
                }
            },
            None => None,
        };
        Some(self.start_scan(folder, false, AfterScan::Reselect(prev)))
    }

    /// Select an entry and ask for its file to be read.
    pub fn select(&mut self, entry: usize, tune: Option<u32>) -> (read: Option<ReadRequest>)
        ensures
            final(self)@ == selected(old(self)@, entry as int, tune),
            read == selected_read(old(self)@, entry as int),
    {
        if entry < self.entries.len() {
            assert(self@.entries[entry as int] == self.entries@[entry as int]@);
            let path = self.entries[entry].path.clone();
            self.selection = Some(Selection { entry, tune });
            Some(ReadRequest { path, force: false })
        } else {
            None
        }
    }

    /// Apply a finished scan (ignoring superseded ones) and run its follow-up action.
    pub fn apply_scan(&mut self, r: ScanResult) -> (read: Option<ReadRequest>)
        ensures
            final(self)@ == scan_applied(old(self)@, r),
            read == scan_read(old(self)@, r),
    {
        if r.seq != self.scan_seq {
            return None;  // a newer scan superseded this one
        }
        let mut status = String::new();
        push_decimal(&mut status, r.entries.len() as u64);
        status.append(" file(s) in ");
        status.append(display(&r.folder).as_str());
        assert(status@ =~= decimal(r.entries@.len()) + " file(s) in "@ + path_shown(r.folder));
        self.scanning = false;
        self.entries = r.entries;
        self.tree = r.tree;
        self.status = status;
        self.folder = Some(r.folder);
        assert(self@ == scan_listed(old(self)@, r));
        match r.after {
            AfterScan::Nothing => None,
            AfterScan::SelectFirst => {
                let mut tune: Option<u32> = None;
                if self.entries.len() > 0 {
                    assert(self@.entries[0] == self.entries@[0]@);
                    if self.entries[0].tunes.len() > 0 {
                        assert(self@.entries[0].tunes[0] == self.entries@[0].tunes@[0]@);
                        tune = Some(self.entries[0].tunes[0].number);
                    }
                }
                self.select(0, tune)
            },
            AfterScan::SelectPath(path) => match position(&self.entries, &path) {
                Some(i) => self.select(i, None),
                None => None,
            },
            AfterScan::Reselect(prev) => {
                self.selection = match prev {
                    Some((path, tune)) => match position(&self.entries, &path) {
                        Some(entry) => Some(Selection { entry, tune }),
                        None => None,
                    },
                    None => None,
                };
                None
            },
        }
    }

    /// Ask for the selected file to be read again and rendered afresh (bypasses the cache, so
    /// external edits, those of included files among them, are picked up).
    pub fn reload(&self) -> (read: Option<ReadRequest>)
        ensures
            read == match selected_entry(self@) {
                Some(e) => Some(ReadRequest { path: e.path, force: true }),
                None => None,
            },
    {
        if let Some(sel) = self.selection {
            if sel.entry < self.entries.len() {
                assert(self@.entries[sel.entry as int] == self.entries@[sel.entry as int]@);
                return Some(ReadRequest { path: self.entries[sel.entry].path.clone(), force: true });
            }
        }
        None
    }

    /// Load a file into the editor buffer (lossy UTF-8). Returns false on read error and
    /// leaves the buffer untouched, so a later Save cannot clobber an unreadable file.
    pub fn load_source(&mut self, path: &PathBuf, read: Result<Vec<u8>, String>) -> (loaded: bool)
        ensures
            final(self)@ == source_read(old(self)@, *path, read),
            loaded == read is Ok,
            // What was loaded from valid UTF-8 is saved as the same bytes.
            read is Ok && valid_utf8(read->Ok_0@) ==> encode_utf8(final(self)@.source) == read->Ok_0@,
    {
        match read {
            Ok(bytes) => {
                self.source = from_utf8_lossy(bytes.as_slice());
                proof {
                    if valid_utf8(bytes@) {
                        decode_utf8_encode_utf8(bytes@);
                    }
                }
                self.source_loaded = true;
                true
            },
            Err(error) => {
                let mut status = String::from_str("Cannot read ");
                status.append(display(path).as_str());
                status.append(": ");
                status.append(error.as_str());
                self.status = status;
                self.source_loaded = false;
                false
            },
        }
    }

    /// Number a render of the current buffer/selection (latest-wins). `force` bypasses the
    /// render cache (used by Reload).
    pub fn render(&mut self, force: bool) -> (job: Option<Job>)
        requires
            can_submit(old(self)@),
        ensures
            final(self)@ == render_submitted(old(self)@),
            submits(old(self)@, force, job),
            counters_agree(old(self)@) ==> counters_agree(final(self)@),
    {
        let sel = match self.selection {
            Some(sel) => sel,
            None => {
                return None;
            },
        };
        if sel.entry >= self.entries.len() {
            return None;
        }
        assert(self@.entries[sel.entry as int] == self.entries@[sel.entry as int]@);
        let base_dir = match holder(&self.entries[sel.entry].path) {
            Some(dir) => dir,
            None => current_dir(),
        };
        let req = RenderRequest {
            format: self.entries[sel.entry].format,
            source: self.source.clone(),
            base_dir,
            tune: sel.tune,
            force,
        };
        self.next_id += 1;
        self.latest_id = self.next_id;
        self.rendering = true;
        Some(Job { id: self.next_id, req })
    }

    /// Take up a file that was read: load it, and render it if that succeeded.
    pub fn finish_read(&mut self, request: &ReadRequest, read: Result<Vec<u8>, String>) -> (job: Option<Job>)
        requires
            read is Ok ==> can_submit(old(self)@),
        ensures
            ({
                let s = source_read(old(self)@, request.path, read);
                match read {
                    Ok(_) => final(self)@ == render_submitted(s) && submits(s, request.force, job),
                    Err(_) => final(self)@ == s && job is None,
                }
            }),
            // What was loaded from valid UTF-8 is saved as the same bytes.
            read is Ok && valid_utf8(read->Ok_0@) ==> encode_utf8(final(self)@.source) == read->Ok_0@,
            counters_agree(old(self)@) ==> counters_agree(final(self)@),
    {
        if self.load_source(&request.path, read) {
            self.render(request.force)
        } else {
            None
        }
    }

    /// Ask for the text of the editor to be written to the selected file. It is refused if
    /// that file was not loaded.
    pub fn save(&mut self) -> (write: Option<WriteRequest>)
        ensures
            final(self)@ == save_asked(old(self)@),
            match write {
                Some(w) => {
                    &&& can_write(old(self)@)
                    &&& w.path == selected_entry(old(self)@)->0.path
                    &&& w.source@ == old(self)@.source
                },
                None => !can_write(old(self)@),
            },
    {
        let sel = match self.selection {
            Some(sel) => sel,
            None => {
                self.status = String::from_str("Nothing selected to save");
                return None;
            },
        };
        if !self.source_loaded {
            self.status = String::from_str("Refusing to save: the file was not loaded successfully");
            return None;
        }
        if sel.entry < self.entries.len() {
            assert(self@.entries[sel.entry as int] == self.entries@[sel.entry as int]@);
            Some(
                WriteRequest {
                    path: self.entries[sel.entry].path.clone(),
                    source: self.source.clone(),
                },
            )
        } else {
            None
        }
    }

    /// Note what became of a write.
    pub fn finish_write(&mut self, path: &PathBuf, written: Result<(), String>)
        ensures
            final(self)@ == (AppView {
                status: match written {
                    Ok(_) => "Saved "@ + path_shown(*path),
                    Err(error) => "Save failed: "@ + error@,
                },
                ..old(self)@
            }),
    {
        match written {
            Ok(_) => {
                let mut status = String::from_str("Saved ");
                status.append(display(path).as_str());
                self.status = status;
            },
            Err(error) => {
                let mut status = String::from_str("Save failed: ");
                status.append(error.as_str());
                self.status = status;
            },
        }
    }

    /// Absorb a finished render, if it is the newest one, and tell which images are no longer
    /// shown.
    pub fn absorb_render(&mut self, result: RenderResult) -> (forget: Vec<String>)
        ensures
            final(self)@ == render_absorbed(old(self)@, result),
            texts(forget@) == if result.id == old(self)@.latest_id {
                forgotten(old(self)@.output, Some(result.output@))
            } else {
                seq![]
            },
    {
        if result.id != self.latest_id {
            let forget: Vec<String> = Vec::new();
            assert(texts(forget@) =~= seq![]);
            return forget;
        }
        self.rendering = false;
        let diagnostics = chars_of(result.output.diagnostics.as_str());
        self.messages = string_of(trim(diagnostics.as_slice()));
        self.status = if result.output.ok {
            let mut status = String::from_str("Rendered ");
            push_decimal(&mut status, result.output.pages.len() as u64);
            status.append(" page(s)");
            status
        } else {
            String::from_str("Render failed — see messages below")
        };
        self.replace_output(Some(result.output))
    }

    /// Note that the text of the editor has changed.
    pub fn note_edit(&mut self)
        ensures
            final(self)@ == (AppView { pending_edit: true, ..old(self)@ }),
    {
        self.pending_edit = true;
    }

    /// Debounced live re-render: fires once the user has paused typing for [`DEBOUNCE_MS`].
    pub fn fire_edit(&mut self, paused: bool) -> (job: Option<Job>)
        requires
            old(self)@.pending_edit && paused ==> can_submit(old(self)@),
        ensures
            if old(self)@.pending_edit && paused {
                &&& final(self)@ == render_submitted(AppView { pending_edit: false, ..old(self)@ })
                &&& submits(old(self)@, false, job)
            } else {
                final(self)@ == old(self)@ && job is None
            },
            counters_agree(old(self)@) ==> counters_agree(final(self)@),
    {
        if self.pending_edit && paused {
            self.pending_edit = false;
            self.render(false)
        } else {
            None
        }
    }
}

/// Opening a folder clears the view and asks for exactly that folder to be scanned; refreshing it
/// keeps the view. Scans are numbered one by one. The images of pages that are cleared away are
/// all forgotten.
pub proof fn law_scan_started(
    app: &mut App,
    folder: PathBuf,
    reset: bool,
    after: AfterScan,
    start: ScanStart,
)
    requires
        can_scan(old(app)@, reset),
        call_ensures(App::start_scan, (app, folder, reset, after), start),
    ensures
        start.request.folder == folder,
        start.request.after == after,
        start.request.seq == old(app).scan_seq + 1,
        final(app).scan_seq == start.request.seq,
        final(app).scanning,
        final(app).status@ == "Scanning "@ + path_shown(folder) + "…"@,
        final(app).folder == old(app).folder,
        final(app).pending_edit == old(app).pending_edit,
        text_view(final(app).tool_warning) == text_view(old(app).tool_warning),
        reset ==> {
            &&& final(app).entries@.len() == 0
            &&& final(app).tree.dirs@.len() == 0 && final(app).tree.files@.len() == 0
            &&& final(app).selection is None
            &&& final(app).output is None
            &&& final(app).source@.len() == 0 && !final(app).source_loaded
            &&& final(app).messages@.len() == 0
            &&& !final(app).rendering
            &&& final(app).latest_id > old(app).next_id
            &&& final(app).next_id == final(app).latest_id
            &&& forall|i: int|
                old(app).output is Some && 0 <= i < old(app).output->0.pages@.len() ==> texts(start.forget@).contains(
                    (#[trigger] old(app).output->0.pages@[i]).uri@,
                )
        },
        !reset ==> {
            &&& entry_views(final(app).entries@) == entry_views(old(app).entries@)
            &&& final(app).tree.tree() == old(app).tree.tree()
            &&& final(app).selection == old(app).selection
            &&& output_view(final(app).output) == output_view(old(app).output)
            &&& final(app).source@ == old(app).source@
            &&& final(app).source_loaded == old(app).source_loaded
            &&& final(app).messages@ == old(app).messages@
            &&& final(app).rendering == old(app).rendering
            &&& final(app).next_id == old(app).next_id
            &&& final(app).latest_id == old(app).latest_id
            &&& start.forget@.len() == 0
        },
{
    let s = old(app)@;
    let t = final(app)@;
    assert(t == scan_started(s, folder, reset));
    assert(texts(start.forget@).len() == start.forget@.len());
    if reset {
        assert(entry_views(final(app).entries@).len() == final(app).entries@.len());
        assert(final(app).tree.tree().dirs.len() == final(app).tree.dirs@.len());
        if old(app).output is Some {
            let pages = old(app).output->0.pages@;
            assert forall|i: int| 0 <= i < pages.len() implies texts(start.forget@).contains(
                (#[trigger] pages[i]).uri@,
            ) by {
                assert(page_views(pages)[i] == pages[i]@);
                assert(shows(pages_of(s.output), pages[i].uri@));
                law_forgets_what_is_gone(s.output, None, pages[i].uri@);
            }
        }
    }
}

/// Opening a path: a folder is scanned, with the first entry to be selected; a path that leads
/// nowhere is named in the status, and nothing else changes.
pub proof fn law_path_opened(app: &mut App, path: PathBuf, kind: PathKind, start: Option<ScanStart>)
    requires
        !(kind is Missing) ==> can_scan(old(app)@, true),
        call_ensures(App::open_path, (app, path, kind), start),
    ensures
        kind is Dir ==> start is Some && start->0.request.folder == path && start->0.request.after is SelectFirst
            && final(app).scanning && start->0.request.seq == final(app).scan_seq,
        kind is Missing ==> {
            &&& start is None
            &&& final(app).status@ == "Path not found: "@ + path_shown(path)
            &&& final(app).selection == old(app).selection
            &&& final(app).source@ == old(app).source@
            &&& entry_views(final(app).entries@) == entry_views(old(app).entries@)
            &&& final(app).scan_seq == old(app).scan_seq
        },
        kind is File ==> (start is Some <==> has_parent(path_components(path))),
        kind is File && start is Some ==> start->0.request.after is SelectPath && final(app).scanning
            && start->0.request.seq == final(app).scan_seq,
{
    assert(kind is Dir ==> final(app)@ == scan_started(old(app)@, path, true));
}

/// A file that is opened is selected as a whole, and read, once the scan of its folder lists it:
/// under its own path, or, if it was a bare name, behind the current directory.
pub proof fn law_opened_file_read(
    app: &mut App,
    path: PathBuf,
    start: Option<ScanStart>,
    later: &mut App,
    r: ScanResult,
    read: Option<ReadRequest>,
    i: int,
)
    requires
        can_scan(old(app)@, true),
        call_ensures(App::open_path, (app, path, PathKind::File), start),
        *old(later) == *final(app),
        call_ensures(App::apply_scan, (later, r), read),
        path_components(path).len() > 0,
        path_components(path).last() is Normal,
        start is Some,
        r.seq == start->0.request.seq,
        r.folder == start->0.request.folder,
        r.after == start->0.request.after,
        r.entries@.len() <= usize::MAX,
        0 <= i < r.entries@.len(),
        path_components(r.entries@[i].path) == if path_components(path).len() > 1 {
            path_components(path)
        } else {
            seq![PartView::CurDir, path_components(path).last()]
        },
    ensures
        final(later).selection is Some,
        final(later).selection->0.tune is None,
        final(later).selection->0.entry < final(later).entries@.len(),
        ({
            let chosen = final(later).entries@[final(later).selection->0.entry as int].path;
            &&& path_components(chosen) == path_components(r.entries@[i].path)
            &&& read is Some && read->0.path == chosen && !read->0.force
        }),
{
    let s = old(app)@;
    let parts = path_components(path);
    let folder = start->0.request.folder;
    assert(opens_file(s, start->0, path));
    assert(path_components(folder).push(parts.last()) =~= path_components(r.entries@[i].path)) by {
        if parts.len() > 1 {
            assert(parts.drop_last().push(parts.last()) =~= parts);
        }
    }
    law_opened_file_selected(s, start->0, path, r, i);
    let t = final(later)@;
    assert(t == scan_applied(scan_started(s, folder, true), r));
    let k = t.selection->0.entry as int;
    assert(t.entries.len() == final(later).entries@.len());
    assert(t.entries[k] == final(later).entries@[k]@);
}

/// A finished scan that was not superseded is listed whole, with its folder and its tree; what is
/// in the editor and what is shown stays. A superseded one changes nothing.
pub proof fn law_scan_listed(app: &mut App, r: ScanResult, read: Option<ReadRequest>)
    requires
        call_ensures(App::apply_scan, (app, r), read),
    ensures
        r.seq == old(app).scan_seq ==> {
            &&& entry_views(final(app).entries@) == entry_views(r.entries@)
            &&& final(app).tree.tree() == r.tree.tree()
            &&& final(app).folder == Some(r.folder)
            &&& !final(app).scanning
            &&& final(app).status@ == decimal(r.entries@.len()) + " file(s) in "@ + path_shown(r.folder)
            &&& r.after is Nothing ==> final(app).selection == old(app).selection && read is None
            &&& r.after is Reselect ==> read is None
            &&& r.after is SelectFirst && r.entries@.len() > 0 ==> {
                &&& final(app).selection is Some && final(app).selection->0.entry == 0
                &&& final(app).selection->0.tune == if r.entries@[0].tunes@.len() > 0 {
                    Some(r.entries@[0].tunes@[0].number)
                } else {
                    None
                }
                &&& read is Some && read->0.path == r.entries@[0].path && !read->0.force
            }
            &&& r.after is SelectFirst && r.entries@.len() == 0 ==> read is None && final(app).selection
                == old(app).selection
        },
        r.seq != old(app).scan_seq ==> final(app)@ == old(app)@ && read is None,
        final(app).source@ == old(app).source@,
        final(app).source_loaded == old(app).source_loaded,
        output_view(final(app).output) == output_view(old(app).output),
        final(app).messages@ == old(app).messages@,
        final(app).next_id == old(app).next_id && final(app).latest_id == old(app).latest_id,
        final(app).rendering == old(app).rendering,
        final(app).pending_edit == old(app).pending_edit,
        final(app).scan_seq == old(app).scan_seq,
{
    let ev = entry_views(r.entries@);
    assert(ev.len() == r.entries@.len());
    if ev.len() > 0 {
        assert(ev[0] == r.entries@[0]@);
        assert(ev[0].tunes.len() == r.entries@[0].tunes@.len());
        if ev[0].tunes.len() > 0 {
            assert(ev[0].tunes[0] == r.entries@[0].tunes@[0]@);
        }
    }
    let s = old(app)@;
    let t = final(app)@;
    assert(t == scan_applied(s, r));
}

/// What a scan of a folder hands back: the number and the purpose of the request, the index of the
/// files, and the tree of the folder.
pub proof fn law_folder_scanned(
    request: ScanRequest,
    files: Vec<SourceFile>,
    result: ScanResult,
    entries: Vec<FileEntry>,
    listed: &[FileEntry],
    tree: DirNode,
)
    requires
        call_ensures(scan_folder, (request, files), result),
        call_ensures(scan, (files,), entries),
        listed@ == entries@,
        call_ensures(build_tree, (&request.folder, listed), tree),
    ensures
        result.seq == request.seq,
        result.folder == request.folder,
        result.after == request.after,
        entry_views(result.entries@) == entry_views(entries@),
        result.tree.tree() == tree.tree(),
{
}

/// Selecting an entry selects that entry and that tune, and asks for its file; one that is not
/// there changes nothing.
pub proof fn law_entry_selected(app: &mut App, entry: usize, tune: Option<u32>, read: Option<ReadRequest>)
    requires
        call_ensures(App::select, (app, entry, tune), read),
    ensures
        entry < old(app).entries@.len() ==> {
            &&& final(app).selection == Some(Selection { entry, tune })
            &&& read is Some && read->0.path == old(app).entries@[entry as int].path && !read->0.force
        },
        entry >= old(app).entries@.len() ==> final(app).selection == old(app).selection && read is None,
        entry_views(final(app).entries@) == entry_views(old(app).entries@),
        final(app).source@ == old(app).source@,
        final(app).source_loaded == old(app).source_loaded,
        output_view(final(app).output) == output_view(old(app).output),
        final(app).status@ == old(app).status@,
        final(app).next_id == old(app).next_id && final(app).latest_id == old(app).latest_id,
{
    let ev = old(app)@.entries;
    assert(ev.len() == old(app).entries@.len());
    if entry < ev.len() {
        assert(ev[entry as int] == old(app).entries@[entry as int]@);
    }
    let s = old(app)@;
    let t = final(app)@;
    assert(t == selected(s, entry as int, tune));
}

/// A file that was read is in the editor whole, and what is engraved is the text of the editor, in
/// the format of the selected file, for the selected tune. A file that could not be read leaves
/// the editor alone, is not engraved, and is not written over.
pub proof fn law_file_read_and_rendered(
    app: &mut App,
    request: ReadRequest,
    read: Result<Vec<u8>, String>,
    job: Option<Job>,
    later: &mut App,
    write: Option<WriteRequest>,
)
    requires
        read is Ok ==> can_submit(old(app)@),
        call_ensures(App::finish_read, (app, &request, read), job),
        *old(later) == *final(app),
        call_ensures(App::save, (later,), write),
    ensures
        read is Ok ==> final(app).source@ == lossy_utf8(read->Ok_0@) && final(app).source_loaded,
        read is Ok && valid_utf8(read->Ok_0@) ==> encode_utf8(final(app).source@) == read->Ok_0@,
        read is Ok ==> (job is Some <==> old(app).selection is Some && old(app).selection->0.entry
            < old(app).entries@.len()),
        read is Ok && job is Some ==> {
            let e = old(app).entries@[old(app).selection->0.entry as int];
            &&& job->0.req.source@ == final(app).source@
            &&& job->0.req.format == e.format
            &&& job->0.req.tune == old(app).selection->0.tune
            &&& job->0.req.force == request.force
            &&& job->0.id == old(app).next_id + 1
            &&& final(app).latest_id == job->0.id && final(app).next_id == job->0.id
            &&& final(app).rendering
            &&& write is Some && write->0.path == e.path && write->0.source@ == final(app).source@
        },
        read is Err ==> {
            &&& job is None
            &&& final(app).source@ == old(app).source@
            &&& !final(app).source_loaded
            &&& final(app).status@ == "Cannot read "@ + path_shown(request.path) + ": "@ + read->Err_0@
            &&& final(app).latest_id == old(app).latest_id && final(app).rendering == old(app).rendering
            &&& write is None
        },
        final(app).selection == old(app).selection,
        entry_views(final(app).entries@) == entry_views(old(app).entries@),
        output_view(final(app).output) == output_view(old(app).output),
        final(app).messages@ == old(app).messages@,
{
    let s = old(app)@;
    let t = final(app)@;
    let u = source_read(s, request.path, read);
    assert(s.entries.len() == old(app).entries@.len());
    if old(app).selection is Some && old(app).selection->0.entry < s.entries.len() {
        let k = old(app).selection->0.entry as int;
        assert(s.entries[k] == old(app).entries@[k]@);
    }
    assert(t == if read is Ok { render_submitted(u) } else { u });
}

/// Saving writes the whole text of the editor to the selected file, exactly if a listed file is
/// selected and was loaded; the text and the view stay.
pub proof fn law_save_writes_editor(app: &mut App, write: Option<WriteRequest>)
    requires
        call_ensures(App::save, (app,), write),
    ensures
        write is Some <==> old(app).source_loaded && old(app).selection is Some && old(app).selection->0.entry
            < old(app).entries@.len(),
        write is Some ==> write->0.source@ == old(app).source@ && write->0.path
            == old(app).entries@[old(app).selection->0.entry as int].path,
        old(app).selection is None ==> final(app).status@ == "Nothing selected to save"@,
        old(app).selection is Some && !old(app).source_loaded ==> final(app).status@
            == "Refusing to save: the file was not loaded successfully"@,
        final(app).source@ == old(app).source@,
        final(app).source_loaded == old(app).source_loaded,
        final(app).selection == old(app).selection,
        entry_views(final(app).entries@) == entry_views(old(app).entries@),
        output_view(final(app).output) == output_view(old(app).output),
{
    let s = old(app)@;
    assert(s.entries.len() == old(app).entries@.len());
    if old(app).selection is Some && old(app).selection->0.entry < s.entries.len() {
        let k = old(app).selection->0.entry as int;
        assert(s.entries[k] == old(app).entries@[k]@);
    }
    assert(final(app)@ == save_asked(s));
}

/// A write is reported with the file, or with the error.
pub proof fn law_write_reported(app: &mut App, path: PathBuf, written: Result<(), String>)
    requires
        call_ensures(App::finish_write, (app, &path, written), ()),
    ensures
        written is Ok ==> final(app).status@ == "Saved "@ + path_shown(path),
        written is Err ==> final(app).status@ == "Save failed: "@ + written->Err_0@,
        final(app).source@ == old(app).source@,
        final(app).source_loaded == old(app).source_loaded,
        final(app).selection == old(app).selection,
        entry_views(final(app).entries@) == entry_views(old(app).entries@),
        output_view(final(app).output) == output_view(old(app).output),
{
}

/// The newest render is shown whole, with all its pages, and its log without white space around
/// it; any other render changes nothing. An image is forgotten exactly if it was shown and is
/// shown no longer.
pub proof fn law_newest_render_shown(
    app: &mut App,
    result: RenderResult,
    forget: Vec<String>,
    before: Seq<char>,
    log: Seq<char>,
    after: Seq<char>,
    uri: Seq<char>,
)
    requires
        call_ensures(App::absorb_render, (app, result), forget),
        result.output.diagnostics@ == before + log + after,
        all_white(before),
        bare(log),
        all_white(after),
    ensures
        result.id == old(app).latest_id ==> {
            &&& output_view(final(app).output) == Some(result.output@)
            &&& final(app).messages@ == log
            &&& !final(app).rendering
            &&& result.output.ok ==> final(app).status@ == "Rendered "@ + decimal(result.output.pages@.len()) + " page(s)"@
            &&& !result.output.ok ==> final(app).status@ == "Render failed — see messages below"@
            &&& texts(forget@).contains(uri) <==> old(app).output is Some && (exists|i: int|
                0 <= i < old(app).output->0.pages@.len() && (#[trigger] old(app).output->0.pages@[i]).uri@ == uri) && !(
            exists|i: int| 0 <= i < result.output.pages@.len() && (#[trigger] result.output.pages@[i]).uri@ == uri)
        },
        result.id != old(app).latest_id ==> final(app)@ == old(app)@ && forget@.len() == 0,
        final(app).source@ == old(app).source@,
        final(app).source_loaded == old(app).source_loaded,
        final(app).selection == old(app).selection,
        entry_views(final(app).entries@) == entry_views(old(app).entries@),
        final(app).latest_id == old(app).latest_id && final(app).next_id == old(app).next_id,
        final(app).pending_edit == old(app).pending_edit,
{
    lemma_trimmed(before, log, after);
    let s = old(app)@;
    assert(final(app)@ == render_absorbed(s, result));
    assert(texts(forget@).len() == forget@.len());
    law_forgets_what_is_gone(s.output, Some(result.output@), uri);
    lemma_shows(result.output.pages@, uri);
    if old(app).output is Some {
        lemma_shows(old(app).output->0.pages@, uri);
    }
}

/// A render that is asked for engraves the whole text of the editor for the selected file and tune,
/// under a new number, in the directory that holds the file.
pub proof fn law_editor_rendered(app: &mut App, force: bool, job: Option<Job>)
    requires
        can_submit(old(app)@),
        call_ensures(App::render, (app, force), job),
    ensures
        job is Some <==> old(app).selection is Some && old(app).selection->0.entry < old(app).entries@.len(),
        job is Some ==> {
            let e = old(app).entries@[old(app).selection->0.entry as int];
            &&& job->0.req.source@ == old(app).source@
            &&& job->0.req.format == e.format
            &&& job->0.req.tune == old(app).selection->0.tune
            &&& job->0.req.force == force
            &&& job->0.id == old(app).next_id + 1
            &&& final(app).latest_id == job->0.id && final(app).next_id == job->0.id
            &&& final(app).rendering
            &&& path_components(e.path).len() > 1 && has_parent(path_components(e.path)) ==> path_components(
                job->0.req.base_dir,
            ) == path_components(e.path).drop_last()
            &&& path_components(e.path).len() <= 1 || !has_parent(path_components(e.path)) ==> path_components(
                job->0.req.base_dir,
            ) == seq![PartView::CurDir]
        },
        job is None ==> final(app)@ == old(app)@,
        final(app).source@ == old(app).source@,
        final(app).selection == old(app).selection,
        output_view(final(app).output) == output_view(old(app).output),
        entry_views(final(app).entries@) == entry_views(old(app).entries@),
        final(app).status@ == old(app).status@,
{
    let s = old(app)@;
    assert(s.entries.len() == old(app).entries@.len());
    if old(app).selection is Some && old(app).selection->0.entry < s.entries.len() {
        let k = old(app).selection->0.entry as int;
        assert(s.entries[k] == old(app).entries@[k]@);
    }
    assert(final(app)@ == render_submitted(s));
}

/// An edit is rendered once, with the whole text of the editor, when the user pauses.
pub proof fn law_edit_rendered(
    app: &mut App,
    noted: &mut App,
    paused: bool,
    job: Option<Job>,
    later: &mut App,
    again: Option<Job>,
)
    requires
        call_ensures(App::note_edit, (app,), ()),
        *old(noted) == *final(app),
        can_submit(old(noted)@),
        call_ensures(App::fire_edit, (noted, paused), job),
        *old(later) == *final(noted),
        call_ensures(App::fire_edit, (later, paused), again),
    ensures
        final(app).source@ == old(app).source@,
        paused ==> (job is Some <==> old(app).selection is Some && old(app).selection->0.entry
            < old(app).entries@.len()),
        job is Some ==> paused && job->0.req.source@ == old(app).source@ && !job->0.req.force && job->0.req.tune
            == old(app).selection->0.tune,
        paused ==> again is None,
        !paused ==> job is None && final(noted).pending_edit,
{
    assert(old(app)@.entries.len() == old(app).entries@.len());
}

/// Reloading asks for the selected file, to be rendered afresh.
pub proof fn law_reload_forces(app: App, read: Option<ReadRequest>)
    requires
        call_ensures(App::reload, (&app,), read),
    ensures
        read is Some <==> app.selection is Some && app.selection->0.entry < app.entries@.len(),
        read is Some ==> read->0.force && read->0.path == app.entries@[app.selection->0.entry as int].path,
{
    assert(app@.entries.len() == app.entries@.len());
    if app.selection is Some && app.selection->0.entry < app@.entries.len() {
        let k = app.selection->0.entry as int;
        assert(app@.entries[k] == app.entries@[k]@);
    }
}

/// Refreshing the open folder scans that folder and keeps the selected file, by its path, and the
/// selected tune.
pub proof fn law_rescan_reselects(
    app: &mut App,
    start: Option<ScanStart>,
    later: &mut App,
    r: ScanResult,
    read: Option<ReadRequest>,
    i: int,
)
    requires
        old(app).folder is Some ==> can_scan(old(app)@, false),
        call_ensures(App::rescan, (app,), start),
        start is Some,
        *old(later) == *final(app),
        call_ensures(App::apply_scan, (later, r), read),
        r.seq == start->0.request.seq,
        r.after == start->0.request.after,
        r.entries@.len() <= usize::MAX,
        old(app).selection is Some,
        old(app).selection->0.entry < old(app).entries@.len(),
        0 <= i < r.entries@.len(),
        path_components(r.entries@[i].path) == path_components(
            old(app).entries@[old(app).selection->0.entry as int].path,
        ),
    ensures
        old(app).folder == Some(start->0.request.folder),
        final(later).selection is Some,
        final(later).selection->0.tune == old(app).selection->0.tune,
        final(later).selection->0.entry < final(later).entries@.len(),
        path_components(final(later).entries@[final(later).selection->0.entry as int].path) == path_components(
            r.entries@[i].path,
        ),
        final(later).source@ == old(app).source@,
        read is None,
{
    let s = old(app)@;
    let k = old(app).selection->0.entry as int;
    assert(s.entries.len() == old(app).entries@.len());
    assert(s.entries[k] == old(app).entries@[k]@);
    let ev = entry_views(r.entries@);
    assert(ev.len() == r.entries@.len());
    assert(ev[i] == r.entries@[i]@);
    lemma_find_entry(ev, path_components(s.entries[k].path));
    let t = final(later)@;
    assert(t.entries == ev);
    assert(t.entries.len() == final(later).entries@.len());
    let m = t.selection->0.entry as int;
    assert(t.entries[m] == final(later).entries@[m]@);
}

/// On startup nothing is open, selected, loaded or shown, and the warning about tools is kept.
pub proof fn law_starts_empty(warning: Option<String>, app: App)
    requires
        call_ensures(App::new, (warning,), app),
    ensures
        app.entries@.len() == 0 && app.selection is None && app.folder is None && app.output is None,
        app.source@.len() == 0 && !app.source_loaded && app.messages@.len() == 0 && app.status@.len() == 0,
        !app.scanning && !app.rendering && !app.pending_edit,
        app.next_id == app.latest_id,
        text_view(app.tool_warning) == text_view(warning),
{
    assert(app@.entries.len() == app.entries@.len());
}

/// The output that is shown is replaced whole, and nothing else changes.
pub proof fn law_output_replaced(app: &mut App, new: Option<RenderOutput>, forget: Vec<String>, uri: Seq<char>)
    requires
        call_ensures(App::replace_output, (app, new), forget),
    ensures
        output_view(final(app).output) == output_view(new),
        texts(forget@).contains(uri) <==> old(app).output is Some && (exists|i: int|
            0 <= i < old(app).output->0.pages@.len() && (#[trigger] old(app).output->0.pages@[i]).uri@ == uri) && !(new is Some
            && (exists|i: int| 0 <= i < new->0.pages@.len() && (#[trigger] new->0.pages@[i]).uri@ == uri)),
        final(app).source@ == old(app).source@,
        final(app).selection == old(app).selection,
        final(app).status@ == old(app).status@,
        final(app).messages@ == old(app).messages@,
        entry_views(final(app).entries@) == entry_views(old(app).entries@),
        final(app).latest_id == old(app).latest_id,
{
    law_forgets_what_is_gone(old(app)@.output, output_view(new), uri);
    if old(app).output is Some {
        lemma_shows(old(app).output->0.pages@, uri);
    }
    if new is Some {
        lemma_shows(new->0.pages@, uri);
    }
}

/// Pages show the images that they have.
proof fn lemma_shows(pages: Seq<Page>, uri: Seq<char>)
    ensures
        page_views(pages).len() == pages.len(),
        shows(page_views(pages), uri) <==> exists|i: int| 0 <= i < pages.len() && (#[trigger] pages[i]).uri@ == uri,
{
    let views = page_views(pages);
    if shows(views, uri) {
        let i = choose|i: int| 0 <= i < views.len() && (#[trigger] views[i]).uri == uri;
        assert(views[i] == pages[i]@);
    }
    if exists|i: int| 0 <= i < pages.len() && (#[trigger] pages[i]).uri@ == uri {
        let i = choose|i: int| 0 <= i < pages.len() && (#[trigger] pages[i]).uri@ == uri;
        assert(views[i] == pages[i]@);
    }
}

/// Numbers run out at the machine limit only: a scan can be started as long as there is a number
/// for it, and for the job that opening another folder takes up, and a render as long as there is
/// one for its job, or no file is selected.
pub proof fn law_numbers_last(app: App, reset: bool, scan: bool, submit: bool)
    requires
        call_ensures(App::can_scan, (&app, reset), scan),
        call_ensures(App::can_submit, (&app,), submit),
    ensures
        scan <==> app.scan_seq < u64::MAX && (reset ==> app.next_id < u64::MAX),
        submit <==> app.next_id < u64::MAX || app.selection is None || app.selection->0.entry >= app.entries@.len(),
        scan <==> can_scan(app@, reset),
        submit <==> can_submit(app@),
{
    assert(app@.entries.len() == app.entries@.len());
}

/// A file is loaded into the editor whole if it could be read.
pub proof fn law_source_loaded(app: &mut App, path: PathBuf, read: Result<Vec<u8>, String>, loaded: bool)
    requires
        call_ensures(App::load_source, (app, &path, read), loaded),
    ensures
        loaded <==> read is Ok,
        final(app).source_loaded == loaded,
        read is Ok ==> final(app).source@ == lossy_utf8(read->Ok_0@) && final(app).status@ == old(app).status@,
        read is Ok && valid_utf8(read->Ok_0@) ==> encode_utf8(final(app).source@) == read->Ok_0@,
        read is Err ==> final(app).source@ == old(app).source@,
        final(app).selection == old(app).selection,
        output_view(final(app).output) == output_view(old(app).output),
        final(app).latest_id == old(app).latest_id,
{
}

} // verus!
