use shellkit::{expand_tilde, mode_is_executable, resolve_cd_target, resolve_relative_path};

fn comps(v: &[&str]) -> Vec<String> {
    v.iter().map(|s| s.to_string()).collect()
}

#[test]
fn tilde_expansion() {
    let home = Some("/home/u".to_string());
    assert_eq!(expand_tilde("~", home.clone()), "/home/u");
    assert_eq!(expand_tilde("~/src", home.clone()), "/home/u/src");
    assert_eq!(expand_tilde("~other", home.clone()), "~other");
    assert_eq!(expand_tilde("a~", home.clone()), "a~");
    assert_eq!(expand_tilde("~", None), "~");
    assert_eq!(expand_tilde("", home), "");
}

#[test]
fn relative_paths() {
    let cwd = comps(&["home", "u"]);
    assert_eq!(resolve_relative_path(&cwd, "src"), comps(&["home", "u", "src"]));
    assert_eq!(resolve_relative_path(&cwd, "../v/./w//"), comps(&["home", "v", "w"]));
    assert_eq!(resolve_relative_path(&cwd, "../../../.."), comps(&[]));
    assert_eq!(resolve_relative_path(&cwd, "."), cwd);
}

#[test]
fn cd_destinations() {
    let cwd = comps(&["home", "u"]);
    let home = Some("/home/u".to_string());
    assert_eq!(resolve_cd_target("/tmp", home.clone(), &cwd), "/tmp");
    assert_eq!(resolve_cd_target("..", home.clone(), &cwd), "/home");
    assert_eq!(resolve_cd_target("../..", home.clone(), &cwd), "/");
    assert_eq!(resolve_cd_target("~/x", home.clone(), &cwd), "/home/u/x");
    assert_eq!(resolve_cd_target("~", home, &cwd), "/home/u");
    assert_eq!(resolve_cd_target("~", None, &cwd), "/home/u/~");
}

#[test]
fn execute_bits() {
    assert!(mode_is_executable(0o755));
    assert!(mode_is_executable(0o001));
    assert!(mode_is_executable(0o100));
    assert!(!mode_is_executable(0o644));
    assert!(!mode_is_executable(0));
}
