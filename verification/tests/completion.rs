use shellkit::{
    command_matches, complete_command, complete_files, completer_reply,
    longest_common_prefix, longest_common_prefix_files, plan_completion, select_completions,
    Effect, FileRequest, Reply, Request, TabMemory,
};

fn strings(v: &[&str]) -> Vec<String> {
    v.iter().map(|s| s.to_string()).collect()
}

fn entries(v: &[(&str, bool)]) -> Vec<(String, bool)> {
    v.iter().map(|(s, d)| (s.to_string(), *d)).collect()
}

fn pairs(r: &Reply) -> Vec<(String, String)> {
    r.candidates
        .iter()
        .map(|c| (c.display.clone(), c.replacement.clone()))
        .collect()
}

fn is_bell(r: &Reply) -> bool {
    matches!(r.effect, Effect::Bell)
}

fn shown(r: &Reply) -> String {
    match &r.effect {
        Effect::Show(s) => s.clone(),
        _ => panic!("expected a listing"),
    }
}

#[test]
fn lcp_cases() {
    assert_eq!(longest_common_prefix(&[]), "");
    assert_eq!(longest_common_prefix(&strings(&["alone"])), "alone");
    assert_eq!(longest_common_prefix(&strings(&["abcd", "abce", "abx"])), "ab");
    assert_eq!(longest_common_prefix(&strings(&["abc", "ab"])), "ab");
    assert_eq!(longest_common_prefix(&strings(&["xyz", "abc"])), "");
    assert_eq!(longest_common_prefix(&strings(&["éa", "éb"])), "é");
}

#[test]
fn lcp_of_files() {
    assert_eq!(
        longest_common_prefix_files(&entries(&[("readme", false), ("read", true)])),
        "read"
    );
    assert_eq!(longest_common_prefix_files(&[]), "");
}

#[test]
fn lcp_of_non_ascii_names() {
    assert_eq!(longest_common_prefix(&strings(&["é", "éa"])), "é");
    assert_eq!(longest_common_prefix(&strings(&["é", "é"])), "é");
    assert_eq!(longest_common_prefix(&strings(&["日本語", "日本"])), "日本");
    assert_eq!(
        longest_common_prefix_files(&entries(&[("é", false), ("éa", true)])),
        "é"
    );
}

#[test]
fn lcp_ignores_order_and_repeats() {
    let a = longest_common_prefix(&strings(&["readme", "reader", "read"]));
    let b = longest_common_prefix(&strings(&["read", "readme", "reader", "read"]));
    assert_eq!(a, "read");
    assert_eq!(a, b);
}

#[test]
fn lcp_more_strings_shorten() {
    let s = strings(&["abcd", "abce"]);
    let mut more = s.clone();
    more.push("abx".to_string());
    let p = longest_common_prefix(&s);
    assert!(p.starts_with(&longest_common_prefix(&more)));
    let mut with_itself = s.clone();
    with_itself.push(p.clone());
    assert_eq!(longest_common_prefix(&with_itself), p);
}

#[test]
fn select_filters_and_sorts() {
    let listing = entries(&[
        ("zeta", false),
        (".", true),
        ("..", true),
        ("alpha", true),
        ("beta", false),
        ("alpine", false),
    ]);
    assert_eq!(
        select_completions(&listing, "al"),
        entries(&[("alpha", true), ("alpine", false)])
    );
    assert_eq!(
        select_completions(&listing, ""),
        entries(&[("alpha", true), ("alpine", false), ("beta", false), ("zeta", false)])
    );
    assert_eq!(select_completions(&listing, "."), entries(&[]));
    assert_eq!(select_completions(&entries(&[("B", false), ("a", false)]), ""), entries(&[("B", false), ("a", false)]));
}

#[test]
fn command_matches_include_builtins_once() {
    let found = strings(&["echo", "ls", "exa", "echo", "env"]);
    assert_eq!(command_matches(&found, "e"), strings(&["echo", "env", "exa", "exit"]));
    assert_eq!(command_matches(&found, "ty"), strings(&["type"]));
    assert_eq!(command_matches(&found, "q"), strings(&[]));
    assert_eq!(command_matches(&[], "c"), strings(&["cd", "complete"]));
}

#[test]
fn plans() {
    assert!(matches!(plan_completion(""), Request::Nothing));
    match plan_completion("ec") {
        Request::Command(w) => assert_eq!(w, "ec"),
        _ => panic!("expected a command"),
    }
    match plan_completion("cat src/ma") {
        Request::Files(f) => {
            assert_eq!(f.dir, "src/");
            assert_eq!(f.prefix, "ma");
            assert_eq!(f.base, "src/");
            assert_eq!(f.start, 4);
        }
        _ => panic!("expected files"),
    }
    match plan_completion("cat a b") {
        Request::Files(f) => {
            assert_eq!(f.dir, ".");
            assert_eq!(f.prefix, "b");
            assert_eq!(f.base, "");
            assert_eq!(f.start, 6);
        }
        _ => panic!("expected files"),
    }
}

fn here(prefix: &str, start: usize) -> FileRequest {
    FileRequest {
        dir: ".".to_string(),
        prefix: prefix.to_string(),
        base: String::new(),
        start,
    }
}

#[test]
fn one_file_completes_with_space_or_slash() {
    let mut mem: Option<TabMemory> = None;
    let r = complete_files(&mut mem, "cat rea", &here("rea", 4), 7, entries(&[("readme", false)]));
    assert_eq!(r.start, 4);
    assert_eq!(pairs(&r), vec![("readme".to_string(), "readme ".to_string())]);
    assert!(mem.is_none());
    let req = FileRequest {
        dir: "src/".to_string(),
        prefix: "l".to_string(),
        base: "src/".to_string(),
        start: 3,
    };
    let r = complete_files(&mut mem, "cd src/l", &req, 8, entries(&[("lib", true)]));
    assert_eq!(pairs(&r), vec![("lib".to_string(), "src/lib/".to_string())]);
}

#[test]
fn no_file_match_changes_nothing() {
    let mut mem: Option<TabMemory> = None;
    let r = complete_files(&mut mem, "cat q", &here("q", 4), 5, entries(&[]));
    assert_eq!(r.start, 5);
    assert!(r.candidates.is_empty());
    assert!(matches!(r.effect, Effect::Quiet));
}

#[test]
fn several_files_complete_common_prefix() {
    let mut mem: Option<TabMemory> = None;
    let ms = entries(&[("readme", false), ("reader", true)]);
    let r = complete_files(&mut mem, "cat r", &here("r", 4), 5, ms);
    assert_eq!(r.start, 4);
    assert_eq!(pairs(&r), vec![("read".to_string(), "read".to_string())]);
    assert!(mem.as_ref().unwrap().first);
}

#[test]
fn several_files_bell_then_list() {
    let mut mem: Option<TabMemory> = None;
    let ms = entries(&[("abc", true), ("abd", false)]);
    let r1 = complete_files(&mut mem, "cat ab", &here("ab", 4), 6, ms.clone());
    assert!(is_bell(&r1));
    assert!(r1.candidates.is_empty());
    assert_eq!(r1.start, 6);
    let r2 = complete_files(&mut mem, "cat ab", &here("ab", 4), 6, ms.clone());
    assert_eq!(shown(&r2), "\nabc/  abd\n$ cat ab");
    assert!(!mem.as_ref().unwrap().first);
    let r3 = complete_files(&mut mem, "cat ab", &here("ab", 4), 6, ms);
    assert_eq!(shown(&r3), "\nabc/  abd\n$ cat ab");
}

#[test]
fn new_context_starts_over() {
    let mut mem: Option<TabMemory> = None;
    let ms = entries(&[("abc", false), ("abd", false)]);
    complete_files(&mut mem, "cat ab", &here("ab", 4), 6, ms.clone());
    let r = complete_files(&mut mem, "less ab", &here("ab", 5), 7, ms);
    assert!(is_bell(&r));
}

#[test]
fn one_command_completes_with_space() {
    let mut mem: Option<TabMemory> = None;
    let r = complete_command(&mut mem, "ty", "ty", 2, strings(&["type"]));
    assert_eq!(r.start, 0);
    assert_eq!(pairs(&r), vec![("type".to_string(), "type ".to_string())]);
}

#[test]
fn several_commands_prefix_then_bell_then_list() {
    let mut mem: Option<TabMemory> = None;
    let ms = strings(&["xyz_bar", "xyz_baz", "xyz_quz"]);
    let r = complete_command(&mut mem, "xy", "xy", 2, ms.clone());
    assert_eq!(pairs(&r), vec![("xyz_".to_string(), "xyz_".to_string())]);
    assert_eq!(r.start, 0);
    let r = complete_command(&mut mem, "xyz_", "xyz_", 4, ms.clone());
    assert!(is_bell(&r));
    let r = complete_command(&mut mem, "xyz_", "xyz_", 4, ms);
    assert_eq!(shown(&r), "\nxyz_bar  xyz_baz  xyz_quz\n$ xyz_");
}

#[test]
fn no_command_match() {
    let mut mem: Option<TabMemory> = None;
    let r = complete_command(&mut mem, "qq", "qq", 2, strings(&[]));
    assert!(r.candidates.is_empty());
    assert_eq!(r.start, 2);
}

#[test]
fn completer_output_first_line() {
    let r = completer_reply("run\nother\n", 6).unwrap();
    assert_eq!(r.start, 6);
    assert_eq!(pairs(&r), vec![("run".to_string(), "run ".to_string())]);
    let r = completer_reply("a b\r\n", 0).unwrap();
    assert_eq!(pairs(&r), vec![("a b".to_string(), "a b ".to_string())]);
    let r = completer_reply("x", 0).unwrap();
    assert_eq!(pairs(&r), vec![("x".to_string(), "x ".to_string())]);
    let r = completer_reply("\n", 0).unwrap();
    assert_eq!(pairs(&r), vec![(String::new(), " ".to_string())]);
    assert!(completer_reply("", 0).is_none());
}
