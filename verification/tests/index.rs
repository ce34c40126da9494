use std::path::PathBuf;

use lilyabc_browser::index::{file_name, parse_abc_tunes, scan, SourceFile};
use lilyabc_browser::lilypond::lilypond_title;
use lilyabc_browser::model::Format;

fn file(path: &str, content: &[u8]) -> SourceFile {
    SourceFile { path: PathBuf::from(path), content: content.to_vec() }
}

#[test]
fn abc_multi_tune_index() {
    let abc = "X:1\nT:First\nK:C\nCDEF|\n\nX:2\nT:Second\nK:G\nGABc|\n";
    let tunes = parse_abc_tunes(abc);
    assert_eq!(tunes.len(), 2);
    assert_eq!(tunes[0].number, 1);
    assert_eq!(tunes[0].title, "First");
    assert_eq!(tunes[1].title, "Second");
}

#[test]
fn abc_untitled_tune_gets_placeholder() {
    let tunes = parse_abc_tunes("X:7\nK:C\nCDEF|\n");
    assert_eq!(tunes.len(), 1);
    assert_eq!(tunes[0].title, "Tune 7");
}

#[test]
fn unreadable_numbers_fall_back_to_the_place() {
    let tunes = parse_abc_tunes("X:\nT:a\nX:nine\nX:4294967296\nX: +12 \nX:-1\n");
    let numbers: Vec<u32> = tunes.iter().map(|t| t.number).collect();
    assert_eq!(numbers, vec![1, 2, 3, 12, 5]);
    assert_eq!(tunes[1].title, "Tune 2");
    assert_eq!(tunes[4].title, "Tune 5");
}

#[test]
fn the_first_title_line_counts() {
    let tunes = parse_abc_tunes("T:before any tune\nX:3\nT:\u{2003}The Reel\u{3000}\nT:Other\r\n");
    assert_eq!(tunes.len(), 1);
    assert_eq!(tunes[0].number, 3);
    assert_eq!(tunes[0].title, "The Reel");
}

#[test]
fn a_blank_first_title_gets_a_placeholder() {
    let tunes = parse_abc_tunes("X:1\nT:\nT:Real\nK:C\nX:2\nT:Next\n");
    assert_eq!(tunes.len(), 2);
    assert_eq!(tunes[0].number, 1);
    assert_eq!(tunes[0].title, "Tune 1");
    assert_eq!(tunes[1].title, "Next");
}

#[test]
fn headers_may_be_indented_and_lines_may_end_with_crlf() {
    let tunes = parse_abc_tunes("%abc\r\n  X:5\r\n\tT:Jig\r\nxX:6\r\n x T:no");
    assert_eq!(tunes.len(), 1);
    assert_eq!(tunes[0].number, 5);
    assert_eq!(tunes[0].title, "Jig");
}

#[test]
fn text_without_tunes_has_an_empty_index() {
    assert_eq!(parse_abc_tunes("").len(), 0);
    assert_eq!(parse_abc_tunes("just\nwords\n").len(), 0);
}

#[test]
fn file_names_are_listed() {
    assert_eq!(file_name(&PathBuf::from("music/a.ly")), "a.ly");
    assert_eq!(file_name(&PathBuf::from("music/a.ly/")), "a.ly");
    assert_eq!(file_name(&PathBuf::from("/")), "?");
    assert_eq!(file_name(&PathBuf::from("..")), "?");
    assert_eq!(file_name(&PathBuf::from("")), "?");
}

#[test]
fn lilypond_files_are_listed_by_their_header_title() {
    let entries = scan(vec![
        file("m/tune.abc", b"\\header { title = \"Air\" }\n"),
        file("m/a.ly", b"\\header { title = \"Air\" }\n"),
        file("m/b.ly", b"\\header { title = \"\" }\n"),
        file("m/c.ily", b"{ c d e }"),
        file("m/d.ly", b"\\header { title = \"Caf\xe9\" }\n"),
    ]);
    let titles: Vec<&str> = entries.iter().map(|e| e.title.as_str()).collect();
    assert_eq!(titles, vec!["Air", "b.ly", "c.ily", "Caf\u{fffd}", "tune.abc"]);
    assert!(entries.iter().all(|e| e.tunes.is_empty()));
}

#[test]
fn header_titles_are_found() {
    let title = |s: &str| lilypond_title(s);
    let air = || Some("Air".to_string());
    assert_eq!(title("\\version \"2.24\"\n\\header {\n  composer = \"Bach\"\n  title = \"Air\"\n}\n"), air());
    assert_eq!(title("\\header{title=\"Air\"}"), air());
    assert_eq!(title("\\header { title = Air }"), air());
    assert_eq!(title("\\header { title = #\"Air\" }"), air());
    assert_eq!(title("\\header { \"title\" = \"Air\" }"), air());
    assert_eq!(title("\\header % { title = \"no\" }\n{ %{ title = \"no\" %} title %{ } %} = \"Air\" }"), air());
    assert_eq!(title("\\header { subtitle = \"no\" sub-title = \"no\" title_x = \"no\" title = \"Air\" }"), air());
    assert_eq!(title("\\header { opus = \\markup { title = \"no\" } title = \"Air\" }"), air());
    assert_eq!(title("\\score { \\header { piece = \"no\" } } \\header { title = \"Air\" title = \"Second\" }"), air());
    assert_eq!(title("\\header { title = \"\\\"A\\\\B\\\" \\n\\t\\x}\" }"), Some("\"A\\B\" \n\t\\x}".to_string()));
}

#[test]
fn what_is_no_header_title() {
    assert_eq!(lilypond_title(""), None);
    assert_eq!(lilypond_title("title = \"Air\""), None);
    assert_eq!(lilypond_title("\\paper { title = \"Air\" }"), None);
    assert_eq!(lilypond_title("\\headers { title = \"Air\" }"), None);
    assert_eq!(lilypond_title("% \\header { title = \"Air\" }"), None);
    assert_eq!(lilypond_title("%{ \\header { title = \"Air\" }"), None);
    assert_eq!(lilypond_title("\"\\header\" { title = \"Air\" }"), None);
    assert_eq!(lilypond_title("\\header { composer = \"Bach\" } title = \"Air\""), None);
    assert_eq!(lilypond_title("\\header { title = \\markup { \"Air\" } }"), None);
    assert_eq!(lilypond_title("\\header { title = ##f }"), None);
    assert_eq!(lilypond_title("\\header { title = \"Air"), None);
    assert_eq!(lilypond_title("\\header { title ="), None);
    assert_eq!(lilypond_title("\\header { title = #"), None);
    assert_eq!(lilypond_title("\\header { title = \"\" }"), Some(String::new()));
}

#[test]
fn a_written_title_is_read_back() {
    for title in ["Air", "", "Été {} = % 'x'", "two\nlines"] {
        assert_eq!(lilypond_title(&format!("\\header {{ title = \"{title}\" }}")), Some(title.to_string()));
    }
}

#[test]
fn other_lines_do_not_matter() {
    let list = |s: &str| parse_abc_tunes(s).into_iter().map(|t| (t.number, t.title)).collect::<Vec<_>>();
    assert_eq!(list("% book\nX:4\nM:C\nT:A\nK:C\nabc|\n\nX:\nabc"), list("X:4\nT:A\nX:\n"));
}

#[test]
fn books_can_be_joined() {
    let list = |s: &str| parse_abc_tunes(s).into_iter().map(|t| (t.number, t.title)).collect::<Vec<_>>();
    let (a, b) = ("X:9\nT:A\nX:2\nK:C\r\n", "X:1\nT:B\nX:\n");
    let mut both = list(a);
    both.push((1, "B".to_string()));
    both.push((4, "Tune 4".to_string()));
    assert_eq!(list(&format!("{a}{b}")), both);
}

#[test]
fn scan_keeps_supported_files_in_path_order() {
    let entries = scan(vec![
        file("m/b.ly", b"X:1\nT:not a tune\n"),
        file("m/notes.txt", b"X:1\n"),
        file("m/a/z.ABC", b"X:2\nT:Caf\xe9\n"),
        file("m/a-b.ily", b""),
        file("m/.abc", b"X:1\n"),
    ]);
    let paths: Vec<String> = entries.iter().map(|e| e.path.display().to_string()).collect();
    assert_eq!(paths, vec!["m/a/z.ABC", "m/a-b.ily", "m/b.ly"]);
    assert_eq!(entries[0].format, Format::Abc);
    assert_eq!(entries[0].title, "z.ABC");
    assert_eq!(entries[0].tunes.len(), 1);
    assert_eq!(entries[0].tunes[0].number, 2);
    assert_eq!(entries[0].tunes[0].title, "Caf\u{fffd}");
    assert_eq!(entries[1].format, Format::LilyPond);
    assert_eq!(entries[2].title, "b.ly");
    assert!(entries[2].tunes.is_empty());
}
