use regex_folder::loader::{load_sources, stem_of, FileEntry, LoadError};
use regex_folder::pattern::{CompileError, Pattern};
use regex_folder::registry::{load_regex_files, BuildError, Registry};

fn entry(name: &str, contents: &str) -> FileEntry {
    FileEntry { file_name: name.to_string(), contents: contents.to_string() }
}

#[test]
fn invalid_stem_fails_the_load() {
    let entries = vec![entry("Good.re", "a"), entry("1event.re", "b")];
    match load_regex_files(&entries) {
        Err(BuildError::InvalidName(n)) => assert_eq!(n, "1event"),
        _ => panic!("an invalid stem must fail the load"),
    }
    match load_sources(&entries) {
        Err(LoadError::InvalidName(n)) => assert_eq!(n, "1event"),
        Ok(_) => panic!("an invalid stem must fail the load"),
    }
}

#[test]
fn keyword_stem_fails_the_load() {
    assert!(matches!(load_regex_files(&vec![entry("struct.re", "a")]), Err(BuildError::InvalidName(_))));
}

#[test]
fn only_re_files_are_selected() {
    assert_eq!(stem_of("Event.re"), Some("Event".to_string()));
    assert_eq!(stem_of("a.b.re"), Some("a.b".to_string()));
    assert_eq!(stem_of(".re"), None);
    assert_eq!(stem_of("Event.rs"), None);
    assert_eq!(stem_of("Event.ree"), None);
    assert_eq!(stem_of("re"), None);
}

#[test]
fn sources_are_sorted_by_name() {
    let entries = vec![entry("Zeta.re", "z"), entry("readme.md", "x"), entry("Alpha.re", "a"), entry("Mid.re", "m")];
    let sources = match load_sources(&entries) {
        Ok(s) => s,
        Err(_) => panic!("should load"),
    };
    let names: Vec<&str> = sources.iter().map(|s| s.name.as_str()).collect();
    assert_eq!(names, vec!["Alpha", "Mid", "Zeta"]);
    assert_eq!(sources[0].raw_text, "a");
}

#[test]
fn registry_lookup_by_name() {
    let entries = vec![entry("Word.re", "(?<w>[a-z]+)"), entry("Digit.re", "(?<d>\\d)")];
    let reg: Registry = match load_regex_files(&entries) {
        Ok(r) => r,
        Err(_) => panic!("should load"),
    };
    assert_eq!(reg.patterns().len(), 2);
    assert_eq!(reg.patterns()[0].name(), "Digit");
    assert_eq!(reg.get("Word").unwrap().source(), "(?mx)(?<w>[a-z]+)");
    assert!(reg.get("Other").is_none());
}

#[test]
fn invalid_pattern_fails_the_build() {
    let entries = vec![entry("Bad.re", "(unclosed")];
    match load_regex_files(&entries) {
        Err(BuildError::InvalidPattern(n, CompileError::Syntax(_))) => assert_eq!(n, "Bad"),
        _ => panic!("an invalid pattern must fail the build"),
    }
    assert!(matches!(Pattern::compile("Dup".to_string(), "(?<a>x)(?<a>y)"), Err(CompileError::Syntax(_))));
}

#[test]
fn group_name_must_be_an_identifier() {
    match Pattern::compile("Kw".to_string(), "(?<match>x)") {
        Err(CompileError::InvalidGroupName(n)) => assert_eq!(n, "match"),
        _ => panic!("a keyword group name must be refused"),
    }
}

#[test]
fn extended_mode_ignores_whitespace_and_comments() {
    let p = Pattern::compile("Ext".to_string(), "(?<a> a b )  # a comment\n c").ok().unwrap();
    let rec = p.match_first("xxabc").unwrap();
    assert_eq!((rec.start_pos, rec.end_pos), (2, 5));
    assert_eq!(rec.fields[0].value.as_ref().unwrap().val, "ab");
}

#[test]
fn line_anchors_match_each_line() {
    let p = Pattern::compile("Line".to_string(), "^(?<w>\\w+)$").ok().unwrap();
    assert_eq!(p.collect_all("one\ntwo\nthree").len(), 3);
}

#[test]
fn empty_matches_are_not_repeated() {
    let p = Pattern::compile("As".to_string(), "a*").ok().unwrap();
    let spans: Vec<(usize, usize)> = p.collect_all("baab").iter().map(|r| (r.start_pos, r.end_pos)).collect();
    assert_eq!(spans, vec![(0, 0), (1, 3), (4, 4)]);
    assert_eq!(p.collect_all("").len(), 1);
}

#[test]
fn absent_group_gives_no_capture() {
    let p = Pattern::compile("Opt".to_string(), "x(?<y>y)?(?<z>z)").ok().unwrap();
    let rec = p.match_first("--xz").unwrap();
    assert!(rec.fields[0].value.is_none());
    let z = rec.fields[1].value.as_ref().unwrap();
    assert_eq!((z.start_pos, z.end_pos, z.val.as_str()), (3, 4, "z"));
}

#[test]
fn stems_with_spaces_or_raw_prefix_fail_the_load() {
    for name in [" Event.re", "Event .re", "r#Event.re", "Ev ent.re", "_.re", "Évent.re"] {
        match load_regex_files(&vec![entry(name, "a")]) {
            Err(BuildError::InvalidName(_)) => {}
            _ => panic!("{name} must fail the load"),
        }
    }
    assert!(load_regex_files(&vec![entry("_Event2.re", "a")]).is_ok());
}

#[test]
fn empty_alternative_then_letters_moves_right() {
    let p = Pattern::compile("Alt".to_string(), "|a").ok().unwrap();
    let spans: Vec<(usize, usize)> = p.collect_all("aa").iter().map(|r| (r.start_pos, r.end_pos)).collect();
    assert_eq!(spans, vec![(0, 0), (1, 1), (2, 2)]);
}
