use std::path::PathBuf;

use lilyabc_browser::app::{scan_folder, AfterScan, App, PathKind, ScanResult};
use lilyabc_browser::index::SourceFile;
use lilyabc_browser::model::{Format, Page, RenderOutput};
use lilyabc_browser::screen::{
    busy_label, dir_label, file_row, join, messages_open, missing_tools, score_label, status_label, tree_label,
    ToolsFound,
};
use lilyabc_browser::worker::RenderResult;

fn files() -> Vec<SourceFile> {
    vec![
        SourceFile { path: PathBuf::from("m/b.abc"), content: b"X:4\nT:One\nX:9\n".to_vec() },
        SourceFile { path: PathBuf::from("m/sub/a.ly"), content: Vec::new() },
    ]
}

fn page(uri: &str) -> Page {
    Page { uri: uri.to_string(), bytes: std::sync::Arc::from(vec![1u8]), width: None, render_scale: 1 }
}

fn result(id: u64, uris: &[&str], ok: bool) -> RenderResult {
    RenderResult {
        id,
        output: RenderOutput {
            pages: uris.iter().map(|u| page(u)).collect(),
            diagnostics: "  warning \n".to_string(),
            ok,
        },
    }
}

fn opened() -> App {
    let mut app = App::new(None);
    let start = app.open_path(PathBuf::from("m"), PathKind::Dir).unwrap();
    let read = app.apply_scan(scan_folder(start.request, files())).unwrap();
    assert!(app.finish_read(&read, Ok(b"X:4\nT:One\n".to_vec())).is_some());
    app
}

#[test]
fn opening_a_folder_selects_and_renders_the_first_tune() {
    let mut app = App::new(Some("warn".to_string()));
    assert_eq!(app.tool_warning.as_deref(), Some("warn"));
    assert_eq!(status_label(&app), "Ready");
    assert_eq!(tree_label(&app).unwrap(), "(open a folder of .ly / .abc files)");
    assert_eq!(score_label(&app).unwrap(), "(select a file to render the score)");
    assert!(app.can_scan(true) && app.can_scan(false) && app.can_submit());
    let start = app.open_path(PathBuf::from("m"), PathKind::Dir).unwrap();
    assert!(start.forget.is_empty());
    assert_eq!(start.request.seq, 1);
    assert_eq!(app.status, "Scanning m…");
    assert_eq!(tree_label(&app).unwrap(), "Scanning…");
    assert_eq!(busy_label(&app).unwrap(), "scanning…");
    let read = app.apply_scan(scan_folder(start.request, files())).unwrap();
    assert_eq!(read.path, PathBuf::from("m/b.abc"));
    assert!(!read.force);
    assert_eq!(app.status, "2 file(s) in m");
    assert_eq!(app.folder, Some(PathBuf::from("m")));
    let job = app.finish_read(&read, Ok(b"X:4\xff".to_vec())).unwrap();
    assert_eq!(job.id, 2);
    assert_eq!(job.req.format, Format::Abc);
    assert_eq!(job.req.source, "X:4\u{fffd}");
    assert_eq!(job.req.base_dir, PathBuf::from("m"));
    assert_eq!(job.req.tune, Some(4));
    assert!(!job.req.force);
    assert_eq!(busy_label(&app).unwrap(), "rendering…");
    assert!(tree_label(&app).is_none());
}

#[test]
fn opening_a_file_selects_it_in_its_folder() {
    let mut app = App::new(None);
    let start = app.open_path(PathBuf::from("m/sub/a.ly"), PathKind::File).unwrap();
    assert_eq!(start.request.folder, PathBuf::from("m/sub"));
    let scanned = scan_folder(start.request, files());
    let read = app.apply_scan(scanned).unwrap();
    assert_eq!(read.path, PathBuf::from("m/sub/a.ly"));
    assert_eq!(app.selection.unwrap().entry, 1);
    assert_eq!(app.selection.unwrap().tune, None);
    assert!(app.open_path(PathBuf::from("/"), PathKind::File).is_none());
    assert!(app.open_path(PathBuf::from("gone"), PathKind::Missing).is_none());
    assert_eq!(app.status, "Path not found: gone");
}

#[test]
fn a_file_outside_any_folder_is_engraved_in_the_current_one() {
    let mut app = App::new(None);
    let start = app.start_scan(PathBuf::from(""), true, AfterScan::SelectFirst);
    let root = vec![SourceFile { path: PathBuf::from("t.ly"), content: Vec::new() }];
    let read = app.apply_scan(scan_folder(start.request, root)).unwrap();
    let job = app.finish_read(&read, Ok(Vec::new())).unwrap();
    assert_eq!(job.req.base_dir, PathBuf::from("."));
}

#[test]
fn opening_a_bare_file_name_selects_it_in_the_current_folder() {
    let mut app = App::new(None);
    let start = app.open_path(PathBuf::from("foo.ly"), PathKind::File).unwrap();
    assert_eq!(start.request.folder, PathBuf::from("."));
    assert_eq!(app.status, "Scanning .…");
    let met = vec![
        SourceFile { path: PathBuf::from("./bar.ly"), content: Vec::new() },
        SourceFile { path: PathBuf::from("./foo.ly"), content: Vec::new() },
    ];
    let read = app.apply_scan(scan_folder(start.request, met)).unwrap();
    assert_eq!(read.path, PathBuf::from("./foo.ly"));
    assert_eq!(app.selection.unwrap().entry, 1);
    assert_eq!(app.selection.unwrap().tune, None);
    let job = app.finish_read(&read, Ok(Vec::new())).unwrap();
    assert_eq!(job.req.base_dir, PathBuf::from("."));
}

#[test]
fn manual_open_leaves_nothing_selected() {
    let mut app = opened();
    let start = app.start_scan(PathBuf::from("m"), true, AfterScan::Nothing);
    assert!(app.entries.is_empty() && app.selection.is_none());
    assert!(app.apply_scan(scan_folder(start.request, files())).is_none());
    assert_eq!(app.entries.len(), 2);
    assert!(app.selection.is_none());
    assert!(app.reload().is_none());
    assert!(app.render(false).is_none());
}

#[test]
fn a_folder_without_music_selects_nothing() {
    let mut app = App::new(None);
    let start = app.open_path(PathBuf::from("m"), PathKind::Dir).unwrap();
    assert!(app.apply_scan(scan_folder(start.request, Vec::new())).is_none());
    assert!(app.selection.is_none());
    assert_eq!(app.status, "0 file(s) in m");
}

#[test]
fn superseded_scans_are_ignored() {
    let mut app = App::new(None);
    let first = app.open_path(PathBuf::from("m"), PathKind::Dir).unwrap();
    let second = app.open_path(PathBuf::from("n"), PathKind::Dir).unwrap();
    assert!(app.apply_scan(scan_folder(first.request, files())).is_none());
    assert!(app.entries.is_empty());
    assert!(app.scanning);
    assert!(app.apply_scan(scan_folder(second.request, files())).is_some());
    assert!(!app.scanning);
}

#[test]
fn only_the_newest_render_is_shown() {
    let mut app = opened();
    let newest = app.latest_id;
    assert!(app.absorb_render(result(newest - 1, &["old"], true)).is_empty());
    assert!(app.output.is_none() && app.rendering);
    assert!(app.absorb_render(result(newest, &["a", "b"], true)).is_empty());
    assert!(!app.rendering);
    assert_eq!(app.messages, "warning");
    assert_eq!(app.status, "Rendered 2 page(s)");
    assert!(!messages_open(&app));
    assert!(score_label(&app).is_none());
    let again = app.render(true).unwrap();
    assert!(again.req.force);
    assert_eq!(app.absorb_render(result(again.id, &["b", "c"], false)), vec!["a"]);
    assert_eq!(app.status, "Render failed — see messages below");
    assert!(messages_open(&app));
    let last = app.render(false).unwrap();
    assert_eq!(app.absorb_render(result(last.id, &[], false)), vec!["b", "c"]);
    assert_eq!(score_label(&app).unwrap(), "The engraver produced no output.");
}

#[test]
fn opening_another_folder_forgets_the_images_and_the_render() {
    let mut app = opened();
    let id = app.latest_id;
    app.absorb_render(result(id, &["a", "a"], true));
    let pending = app.render(false).unwrap();
    let start = app.start_scan(PathBuf::from("n"), true, AfterScan::Nothing);
    assert_eq!(start.forget, vec!["a", "a"]);
    assert!(app.output.is_none() && !app.rendering && app.source.is_empty());
    assert!(app.absorb_render(result(pending.id, &["late"], true)).is_empty());
    assert!(app.output.is_none());
}

#[test]
fn a_rescan_keeps_the_selected_file() {
    let mut app = opened();
    app.select(1, None);
    let start = app.rescan().unwrap();
    assert!(start.forget.is_empty());
    assert_eq!(app.entries.len(), 2);
    let mut more = files();
    more.push(SourceFile { path: PathBuf::from("m/c.ly"), content: Vec::new() });
    more.push(SourceFile { path: PathBuf::from("m/a.ly"), content: Vec::new() });
    assert!(app.apply_scan(scan_folder(start.request, more)).is_none());
    let sel = app.selection.unwrap();
    assert_eq!(app.entries[sel.entry].path, PathBuf::from("m/sub/a.ly"));
    assert_eq!(sel.entry, 3);
    let start = app.rescan().unwrap();
    app.apply_scan(scan_folder(start.request, Vec::new()));
    assert!(app.selection.is_none());
    assert!(App::new(None).rescan().is_none());
}

#[test]
fn an_unreadable_file_is_not_overwritten() {
    let mut app = opened();
    assert!(app.save().is_some());
    let read = app.select(1, None).unwrap();
    assert!(app.finish_read(&read, Err("denied".to_string())).is_none());
    assert_eq!(app.status, "Cannot read m/sub/a.ly: denied");
    assert_eq!(app.source, "X:4\nT:One\n");
    assert!(app.save().is_none());
    assert_eq!(app.status, "Refusing to save: the file was not loaded successfully");
}

#[test]
fn saving_writes_the_editor_to_the_selected_file() {
    let mut app = App::new(None);
    assert!(app.save().is_none());
    assert_eq!(app.status, "Nothing selected to save");
    let mut app = opened();
    let write = app.save().unwrap();
    assert_eq!(write.path, PathBuf::from("m/b.abc"));
    assert_eq!(write.source, "X:4\nT:One\n");
    app.finish_write(&write.path, Ok(()));
    assert_eq!(app.status, "Saved m/b.abc");
    app.finish_write(&write.path, Err("full".to_string()));
    assert_eq!(app.status, "Save failed: full");
    app.selection = None;
    app.entries.clear();
    assert!(app.save().is_none());
}

#[test]
fn reload_bypasses_the_cache() {
    let app = opened();
    let read = app.reload().unwrap();
    assert_eq!(read.path, PathBuf::from("m/b.abc"));
    assert!(read.force);
}

#[test]
fn edits_are_rendered_after_a_pause() {
    let mut app = opened();
    assert!(app.fire_edit(true).is_none());
    app.source = "edited".to_string();
    app.note_edit();
    assert!(app.fire_edit(false).is_none());
    let job = app.fire_edit(true).unwrap();
    assert_eq!(job.req.source, "edited");
    assert!(!job.req.force);
    assert!(app.fire_edit(true).is_none());
}

#[test]
fn out_of_range_selections_do_nothing() {
    let mut app = opened();
    assert!(app.select(2, None).is_none());
    assert_eq!(app.selection.unwrap().entry, 0);
    let foreign = ScanResult {
        seq: app.scan_seq + 1,
        folder: PathBuf::from("x"),
        entries: Vec::new(),
        tree: Default::default(),
        after: AfterScan::Nothing,
    };
    assert!(app.apply_scan(foreign).is_none());
    assert_eq!(app.entries.len(), 2);
}

#[test]
fn rows_of_the_file_tree() {
    let mut app = opened();
    let row = file_row(&app, 0).unwrap();
    assert_eq!(row.title, "b.abc");
    assert!(!row.selected);
    let tunes: Vec<(u32, &str, bool)> = row.tunes.iter().map(|t| (t.number, t.label.as_str(), t.selected)).collect();
    assert_eq!(tunes, vec![(4, "4. One", true), (9, "9. Tune 9", false)]);
    let row = file_row(&app, 1).unwrap();
    assert!(row.tunes.is_empty() && !row.selected);
    app.select(1, None);
    assert!(file_row(&app, 1).unwrap().selected);
    assert!(file_row(&app, 2).is_none());
    assert_eq!(dir_label(&app.tree.dirs[0]), "sub/");
}

#[test]
fn missing_tools_are_named() {
    let found = |lilypond, abcm2ps, rsvg_convert| ToolsFound { lilypond, abcm2ps, rsvg_convert };
    assert_eq!(missing_tools(found(true, true, true)), None);
    assert_eq!(
        missing_tools(found(false, true, false)).unwrap(),
        "Missing: lilypond, librsvg2-bin — install to render scores/titles"
    );
    assert_eq!(missing_tools(found(true, false, true)).unwrap(), "Missing: abcm2ps — install to render scores/titles");
    assert_eq!(join(&Vec::new()), "");
}

#[test]
fn ids_rise() {
    let mut app = opened();
    let first = app.render(false).unwrap().id;
    let second = app.render(true).unwrap().id;
    assert_eq!(second, first + 1);
    assert_eq!(app.latest_id, second);
    let start = app.start_scan(PathBuf::from("n"), true, AfterScan::Nothing);
    assert_eq!(app.latest_id, second + 1);
    let next = app.rescan().unwrap();
    assert_eq!(next.request.seq, start.request.seq + 1);
    assert_eq!(app.latest_id, second + 1);
}

#[test]
fn numbers_run_out_only_at_the_machine_limit() {
    let mut app = opened();
    app.next_id = u64::MAX;
    assert!(!app.can_submit());
    assert!(!app.can_scan(true));
    assert!(app.can_scan(false));
    app.selection = None;
    assert!(app.can_submit());
    app.scan_seq = u64::MAX;
    assert!(!app.can_scan(false));
}
