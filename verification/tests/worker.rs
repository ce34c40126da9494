use std::path::PathBuf;

use lilyabc_browser::engraver::RenderRequest;
use lilyabc_browser::model::{Format, RenderOutput};
use lilyabc_browser::worker::{cache_key, key_input, newest, scratch_name, work_name, Job, RenderCache, CACHE_CAP};

fn request(source: &str, force: bool) -> RenderRequest {
    RenderRequest {
        format: Format::Abc,
        source: source.to_string(),
        base_dir: PathBuf::from("dir"),
        tune: Some(0x0102_0304),
        force,
    }
}

fn job(id: u64, source: &str, force: bool) -> Job {
    Job { id, req: request(source, force) }
}

fn output(log: &str, ok: bool) -> RenderOutput {
    RenderOutput { pages: Vec::new(), diagnostics: log.to_string(), ok }
}

#[test]
fn key_covers_format_tune_directory_and_source() {
    assert_eq!(
        key_input(Format::Abc, Some(0x0102_0304), b"dir", "src"),
        b"\x01\x01\x04\x03\x02\x01dir\0src".to_vec()
    );
    assert_eq!(key_input(Format::LilyPond, None, b"", ""), vec![0, 0, 0, 0, 0, 0, 0]);
    assert_ne!(key_input(Format::Abc, None, b"d", "s"), key_input(Format::Abc, Some(0), b"d", "s"));
    assert_ne!(key_input(Format::Abc, None, b"ab", "c"), key_input(Format::Abc, None, b"a", "bc"));
}

#[test]
fn all_tunes_and_tune_zero_are_different_renders() {
    let mut all = request("X:0", false);
    all.tune = None;
    let mut zero = request("X:0", false);
    zero.tune = Some(0);
    assert_ne!(cache_key(&all), cache_key(&zero));
}

#[test]
fn cache_key_is_the_hash_of_the_key_bytes() {
    let mut h = blake3::Hasher::new();
    h.update(&[1u8]);
    h.update(&[1u8]);
    h.update(&0x0102_0304u32.to_le_bytes());
    h.update(b"dir");
    h.update(&[0]);
    h.update(b"X:1");
    assert_eq!(&cache_key(&request("X:1", false)), h.finalize().as_bytes());
}

#[test]
fn successful_renders_are_recalled() {
    let mut cache = RenderCache::new();
    let a = job(1, "a", false);
    assert!(cache.start_job(&a).is_none());
    let done = cache.finish_job(&a, output("log a", true));
    assert_eq!(done.id, 1);
    assert_eq!(done.output.diagnostics, "log a");
    let hit = cache.start_job(&job(2, "a", false)).unwrap();
    assert_eq!(hit.id, 2);
    assert_eq!(hit.output.diagnostics, "log a");
    assert!(cache.start_job(&job(3, "b", false)).is_none());
}

#[test]
fn forced_and_failed_renders() {
    let mut cache = RenderCache::new();
    let a = job(1, "a", false);
    cache.finish_job(&a, output("bad", false));
    assert!(cache.look_up(&a.req).is_none());
    cache.finish_job(&a, output("good", true));
    assert!(cache.start_job(&job(2, "a", true)).is_none());
    cache.finish_job(&job(2, "a", true), output("better", true));
    assert_eq!(cache.look_up(&a.req).unwrap().diagnostics, "better");
    cache.finish_job(&a, output("bad again", false));
    assert_eq!(cache.look_up(&a.req).unwrap().diagnostics, "better");
}

#[test]
fn the_least_recently_used_render_is_dropped() {
    let mut cache = RenderCache::new();
    for i in 0..CACHE_CAP {
        cache.remember(&request(&format!("{i}"), false), &output(&format!("log {i}"), true));
    }
    // Looking at the oldest keeps it; the second oldest goes instead.
    assert_eq!(cache.look_up(&request("0", false)).unwrap().diagnostics, "log 0");
    cache.remember(&request("new", false), &output("log new", true));
    assert!(cache.look_up(&request("1", false)).is_none());
    assert_eq!(cache.look_up(&request("0", false)).unwrap().diagnostics, "log 0");
    assert_eq!(cache.look_up(&request("2", false)).unwrap().diagnostics, "log 2");
    assert_eq!(cache.look_up(&request("new", false)).unwrap().diagnostics, "log new");
}

#[test]
fn only_the_newest_job_is_run() {
    assert_eq!(newest(job(1, "a", false), Vec::new()).id, 1);
    let chosen = newest(job(1, "a", false), vec![job(2, "b", false), job(3, "c", true)]);
    assert_eq!(chosen.id, 3);
    assert_eq!(chosen.req.source, "c");
}

#[test]
fn scratch_directories_are_named() {
    assert_eq!(scratch_name(4711), "lilyabc-4711");
    assert_eq!(work_name(0), "job-0");
}
