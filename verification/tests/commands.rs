use shellkit::{describe_type, interpret, is_builtin, Action, CompletionRegistry};

fn printed(a: Action) -> String {
    match a {
        Action::Print(s) => s,
        _ => panic!("expected a line on standard output"),
    }
}

fn complained(a: Action) -> String {
    match a {
        Action::Complain(s) => s,
        _ => panic!("expected a line on standard error"),
    }
}

fn is_nothing(a: &Action) -> bool {
    matches!(a, Action::Nothing)
}

#[test]
fn register_then_show_completer() {
    let mut reg = CompletionRegistry::new();
    assert!(is_nothing(&interpret(&mut reg, "complete -C /usr/bin/git-completer git")));
    assert_eq!(
        printed(interpret(&mut reg, "complete -p git")),
        "complete -C '/usr/bin/git-completer' git"
    );
    assert_eq!(reg.lookup("git"), Some("/usr/bin/git-completer".to_string()));
}

#[test]
fn several_registrations() {
    let mut reg = CompletionRegistry::new();
    interpret(&mut reg, "complete -C /usr/bin/git git");
    interpret(&mut reg, "complete -C /usr/bin/docker docker");
    assert_eq!(printed(interpret(&mut reg, "complete -p git")), "complete -C '/usr/bin/git' git");
    assert_eq!(
        printed(interpret(&mut reg, "complete -p docker")),
        "complete -C '/usr/bin/docker' docker"
    );
}

#[test]
fn registration_is_overwritten() {
    let mut reg = CompletionRegistry::new();
    interpret(&mut reg, "complete -C /old git");
    interpret(&mut reg, "complete -C /new git");
    assert_eq!(printed(interpret(&mut reg, "complete -p git")), "complete -C '/new' git");
}

#[test]
fn extra_whitespace_is_normalized() {
    let mut reg = CompletionRegistry::new();
    interpret(&mut reg, "complete   -C    /very/long/path/to/completer    mycommand");
    assert_eq!(
        printed(interpret(&mut reg, "complete -p mycommand")),
        "complete -C '/very/long/path/to/completer' mycommand"
    );
}

#[test]
fn unregistered_completion() {
    let mut reg = CompletionRegistry::new();
    assert_eq!(
        complained(interpret(&mut reg, "complete -p unknown")),
        "complete: unknown: no completion specification"
    );
}

#[test]
fn complete_missing_arguments() {
    let mut reg = CompletionRegistry::new();
    assert_eq!(
        complained(interpret(&mut reg, "complete -C /path")),
        "complete: -C: option requires an argument"
    );
    assert_eq!(
        complained(interpret(&mut reg, "complete -p")),
        "complete: -p: option requires an argument"
    );
    assert!(is_nothing(&interpret(&mut reg, "complete")));
    assert!(is_nothing(&interpret(&mut reg, "complete -x y")));
    assert_eq!(reg.lookup("/path"), None);
}

#[test]
fn registry_lookup_and_register() {
    let mut reg = CompletionRegistry::new();
    assert_eq!(reg.lookup("a"), None);
    reg.register("a".to_string(), "/x".to_string());
    reg.register("b".to_string(), "/y".to_string());
    reg.register("a".to_string(), "/z".to_string());
    assert_eq!(reg.lookup("a"), Some("/z".to_string()));
    assert_eq!(reg.lookup("b"), Some("/y".to_string()));
    assert_eq!(reg.lookup("c"), None);
}

#[test]
fn blank_lines_do_nothing() {
    let mut reg = CompletionRegistry::new();
    assert!(is_nothing(&interpret(&mut reg, "")));
    assert!(is_nothing(&interpret(&mut reg, "   \t ")));
    assert!(is_nothing(&interpret(&mut reg, "''")));
}

#[test]
fn exit_command() {
    let mut reg = CompletionRegistry::new();
    assert!(matches!(interpret(&mut reg, "  exit  "), Action::Exit));
    assert!(matches!(interpret(&mut reg, "exit 0"), Action::Exit));
}

#[test]
fn echo_joins_arguments() {
    let mut reg = CompletionRegistry::new();
    match interpret(&mut reg, "echo   hello    'big   world'") {
        Action::Echo { text, redirection } => {
            assert_eq!(text, "hello big   world");
            assert!(redirection.stdout_target.is_none());
        }
        _ => panic!("expected echo"),
    }
    match interpret(&mut reg, "echo") {
        Action::Echo { text, .. } => assert_eq!(text, ""),
        _ => panic!("expected echo"),
    }
}

#[test]
fn echo_with_redirection() {
    let mut reg = CompletionRegistry::new();
    match interpret(&mut reg, "echo hi 1>> out 2> err") {
        Action::Echo { text, redirection } => {
            assert_eq!(text, "hi");
            assert_eq!(redirection.stdout_target, Some(("out".to_string(), true)));
            assert_eq!(redirection.stderr_target, Some(("err".to_string(), false)));
        }
        _ => panic!("expected echo"),
    }
}

#[test]
fn type_of_builtins_and_others() {
    let mut reg = CompletionRegistry::new();
    assert_eq!(printed(interpret(&mut reg, "type echo")), "echo is a shell builtin");
    assert_eq!(printed(interpret(&mut reg, "type complete")), "complete is a shell builtin");
    assert_eq!(printed(interpret(&mut reg, "type")), "type: missing argument");
    match interpret(&mut reg, "type ls") {
        Action::LookupType(t) => assert_eq!(t, "ls"),
        _ => panic!("expected a lookup"),
    }
}

#[test]
fn type_messages() {
    assert_eq!(describe_type("ls", Some("/bin/ls".to_string())), "ls is /bin/ls");
    assert_eq!(describe_type("nope", None), "nope: not found");
}

#[test]
fn pwd_and_cd() {
    let mut reg = CompletionRegistry::new();
    assert!(matches!(interpret(&mut reg, "pwd"), Action::Pwd { .. }));
    assert_eq!(complained(interpret(&mut reg, "cd")), "cd: missing argument");
    match interpret(&mut reg, "cd ~/src") {
        Action::ChangeDir(t) => assert_eq!(t, "~/src"),
        _ => panic!("expected cd"),
    }
}

#[test]
fn external_programs() {
    let mut reg = CompletionRegistry::new();
    match interpret(&mut reg, "ls -l 'a b' > listing") {
        Action::External { program, args, redirection } => {
            assert_eq!(program, "ls");
            assert_eq!(args, vec!["-l".to_string(), "a b".to_string()]);
            assert_eq!(redirection.stdout_target, Some(("listing".to_string(), false)));
        }
        _ => panic!("expected a program"),
    }
}

#[test]
fn builtin_names() {
    for b in ["echo", "exit", "type", "pwd", "cd", "complete"] {
        assert!(is_builtin(b));
    }
    assert!(!is_builtin("ls"));
    assert!(!is_builtin("ech"));
    assert!(!is_builtin(""));
}
