//! What the shell does with a line typed at its prompt.
use vstd::prelude::*;
use vstd::string::StringExecFns;

use crate::matching::{builtin_names, is_builtin};
use crate::redirect::{parse_with_redirection, split_redirections, target_view, Redirection};
use crate::lexer::{is_plain_word, join_words, lemma_tokenize_join_words, lemma_trim_join_words};
use crate::redirect::redirect_kind;
use crate::registry::CompletionRegistry;
use crate::text::{chars_eq, chars_of, join_sep, join_strings, string_of, trim, trim_chars, views};

verus! {

/// What the shell is to do for one line.
pub enum Action {
    /// Nothing at all (an empty line, or a builtin with nothing to say).
    Nothing,
    /// Leave the shell.
    Exit,
    /// Write `text` and a newline to standard output, or to the file that
    /// the redirection names.
    Echo { text: String, redirection: Redirection },
    /// Write the current directory, as `Echo` writes its text.
    Pwd { redirection: Redirection },
    /// Write this line to standard output.
    Print(String),
    /// Write this line to standard error.
    Complain(String),
    /// `type` of a command that is no builtin: search the path for it and
    /// report what `describe_type` says.
    LookupType(String),
    /// `cd` to this argument (see `resolve_cd_target`).
    ChangeDir(String),
    /// Run this program with these arguments and redirections.
    External { program: String, args: Vec<String>, redirection: Redirection },
}

/// The two redirection targets as mathematical values.
pub open spec fn redirection_view(r: Redirection) -> (Option<(Seq<char>, bool)>, Option<(Seq<char>, bool)>) {
    (target_view(r.stdout_target), target_view(r.stderr_target))
}

/// An action as a mathematical value.
pub enum ActionView {
    Nothing,
    Exit,
    Echo(Seq<char>, (Option<(Seq<char>, bool)>, Option<(Seq<char>, bool)>)),
    Pwd((Option<(Seq<char>, bool)>, Option<(Seq<char>, bool)>)),
    Print(Seq<char>),
    Complain(Seq<char>),
    LookupType(Seq<char>),
    ChangeDir(Seq<char>),
    External(Seq<char>, Seq<Seq<char>>, (Option<(Seq<char>, bool)>, Option<(Seq<char>, bool)>)),
}

pub open spec fn action_view(a: Action) -> ActionView {
    match a {
        Action::Nothing => ActionView::Nothing,
        Action::Exit => ActionView::Exit,
        Action::Echo { text, redirection } => ActionView::Echo(text@, redirection_view(redirection)),
        Action::Pwd { redirection } => ActionView::Pwd(redirection_view(redirection)),
        Action::Print(s) => ActionView::Print(s@),
        Action::Complain(s) => ActionView::Complain(s@),
        Action::LookupType(s) => ActionView::LookupType(s@),
        Action::ChangeDir(s) => ActionView::ChangeDir(s@),
        Action::External { program, args, redirection } => ActionView::External(
            program@,
            views(args@),
            redirection_view(redirection),
        ),
    }
}

/// What `complete` does with its words `parts` (`parts[0]` is `complete`):
/// `-C script cmd` registers `script` for `cmd`; `-p cmd` shows the
/// registration of `cmd` as a `complete` command.
pub open spec fn decide_complete(reg: Map<Seq<char>, Seq<char>>, parts: Seq<Seq<char>>) -> (Map<Seq<char>, Seq<char>>, ActionView) {
    if parts.len() < 2 {
        (reg, ActionView::Nothing)
    } else if parts[1] == "-C"@ {
        if parts.len() < 4 {
            (reg, ActionView::Complain("complete: -C: option requires an argument"@))
        } else {
            (reg.insert(parts[3], parts[2]), ActionView::Nothing)
        }
    } else if parts[1] == "-p"@ {
        if parts.len() < 3 {
            (reg, ActionView::Complain("complete: -p: option requires an argument"@))
        } else if reg.contains_key(parts[2]) {
            (reg, ActionView::Print("complete -C '"@ + reg[parts[2]] + "' "@ + parts[2]))
        } else {
            (reg, ActionView::Complain("complete: "@ + parts[2] + ": no completion specification"@))
        }
    } else {
        (reg, ActionView::Nothing)
    }
}

/// What the shell does with `line`, given the completer registrations
/// `reg`: the registrations afterwards and the action to take. The line is
/// trimmed, split into words and redirections, and its first word picks a
/// builtin (`exit`, `echo`, `type`, `pwd`, `cd`, `complete`) or names a
/// program to run.
pub open spec fn decide(reg: Map<Seq<char>, Seq<char>>, line: Seq<char>) -> (Map<Seq<char>, Seq<char>>, ActionView) {
    let sv = split_redirections(crate::lexer::tokenize(trim(line)));
    let parts = sv.parts;
    let rv = (sv.stdout_target, sv.stderr_target);
    if parts.len() == 0 {
        (reg, ActionView::Nothing)
    } else if parts[0] == "exit"@ {
        (reg, ActionView::Exit)
    } else if parts[0] == "echo"@ {
        (reg, ActionView::Echo(join_sep(parts.skip(1), " "@), rv))
    } else if parts[0] == "type"@ {
        if parts.len() < 2 {
            (reg, ActionView::Print("type: missing argument"@))
        } else if builtin_names().contains(parts[1]) {
            (reg, ActionView::Print(parts[1] + " is a shell builtin"@))
        } else {
            (reg, ActionView::LookupType(parts[1]))
        }
    } else if parts[0] == "pwd"@ {
        (reg, ActionView::Pwd(rv))
    } else if parts[0] == "cd"@ {
        if parts.len() < 2 {
            (reg, ActionView::Complain("cd: missing argument"@))
        } else {
            (reg, ActionView::ChangeDir(parts[1]))
        }
    } else if parts[0] == "complete"@ {
        decide_complete(reg, parts)
    } else {
        (reg, ActionView::External(parts[0], parts.skip(1), rv))
    }
}

/// Whether `s` is the word `w`.
fn is_word(s: &String, w: &str) -> (res: bool)
    ensures
        res == (s@ == w@),
{
    let a = chars_of(s.as_str());
    let b = chars_of(w);
    chars_eq(a.as_slice(), b.as_slice())
}

/// A new string holding `a` followed by `b`.
fn concat(a: &str, b: &str) -> (res: String)
    ensures
        res@ == a@ + b@,
{
    let mut s = String::new();
    s.append(a);
    s.append(b);
    assert(s@ =~= a@ + b@);
    s
}

/// The words of `parts` after the first.
fn rest_of(parts: &Vec<String>) -> (res: Vec<String>)
    requires
        parts@.len() >= 1,
    ensures
        views(res@) == views(parts@).skip(1),
{
    let mut out: Vec<String> = Vec::new();
    let mut i: usize = 1;
    while i < parts.len()
        invariant
            1 <= i <= parts@.len(),
            views(out@) =~= views(parts@).subrange(1, i as int),
        decreases parts@.len() - i,
    {
        let ghost before = views(out@);
        let w = parts[i].clone();
        out.push(w);
        assert(views(out@) =~= before.push(parts@[i as int]@));
        assert(views(parts@).subrange(1, i + 1) =~= views(parts@).subrange(1, i as int).push(
            parts@[i as int]@,
        ));
        i += 1;
    }
    assert(views(parts@).subrange(1, parts@.len() as int) =~= views(parts@).skip(1));
    out
}

/// What `complete` does with its words.
fn run_complete(registry: &mut CompletionRegistry, parts: &Vec<String>) -> (res: Action)
    requires
        views(parts@).len() >= 1,
    ensures
        (final(registry)@, action_view(res)) == decide_complete(old(registry)@, views(parts@)),
{
    let ghost pv = views(parts@);
    if parts.len() < 2 {
        return Action::Nothing;
    }
    assert(pv[1] == parts@[1]@);
    if is_word(&parts[1], "-C") {
        if parts.len() < 4 {
            return Action::Complain(String::from_str("complete: -C: option requires an argument"));
        }
        assert(pv[2] == parts@[2]@ && pv[3] == parts@[3]@);
        let script = parts[2].clone();
        let command = parts[3].clone();
        registry.register(command, script);
        Action::Nothing
    } else if is_word(&parts[1], "-p") {
        if parts.len() < 3 {
            return Action::Complain(String::from_str("complete: -p: option requires an argument"));
        }
        assert(pv[2] == parts@[2]@);
        match registry.lookup(parts[2].as_str()) {
            Some(script) => {
                let mut s = String::from_str("complete -C '");
                s.append(script.as_str());
                s.append("' ");
                s.append(parts[2].as_str());
                Action::Print(s)
            },
            None => {
                let mut s = String::from_str("complete: ");
                s.append(parts[2].as_str());
                s.append(": no completion specification");
                Action::Complain(s)
            },
        }
    } else {
        Action::Nothing
    }
}

/// Decides what to do with `line`, updating the completer registrations
/// that `complete -C` makes.
pub fn interpret(registry: &mut CompletionRegistry, line: &str) -> (res: Action)
    ensures
        (final(registry)@, action_view(res)) == decide(old(registry)@, line@),
{
    let cs = chars_of(line);
    let trimmed = trim_chars(cs.as_slice());
    let command = string_of(trimmed.as_slice());
    let (parts, redirection) = parse_with_redirection(command.as_str());
    let ghost pv = views(parts@);
    if parts.len() == 0 {
        return Action::Nothing;
    }
    assert(pv[0] == parts@[0]@);
    let cmd = &parts[0];
    if is_word(cmd, "exit") {
        Action::Exit
    } else if is_word(cmd, "echo") {
        let args = rest_of(&parts);
        let text = join_strings(args.as_slice(), " ");
        Action::Echo { text, redirection }
    } else if is_word(cmd, "type") {
        if parts.len() < 2 {
            return Action::Print(String::from_str("type: missing argument"));
        }
        assert(pv[1] == parts@[1]@);
        let target = &parts[1];
        if is_builtin(target.as_str()) {
            Action::Print(concat(target.as_str(), " is a shell builtin"))
        } else {
            Action::LookupType(target.clone())
        }
    } else if is_word(cmd, "pwd") {
        Action::Pwd { redirection }
    } else if is_word(cmd, "cd") {
        if parts.len() < 2 {
            return Action::Complain(String::from_str("cd: missing argument"));
        }
        assert(pv[1] == parts@[1]@);
        Action::ChangeDir(parts[1].clone())
    } else if is_word(cmd, "complete") {
        run_complete(registry, &parts)
    } else {
        let program = cmd.clone();
        let args = rest_of(&parts);
        Action::External { program, args, redirection }
    }
}

/// What `type` reports for a command that is no builtin: where the search
/// path has it, or that it is not found.
pub fn describe_type(target: &str, found: Option<String>) -> (res: String)
    ensures
        res@ == match found {
            Some(p) => target@ + " is "@ + p@,
            None => target@ + ": not found"@,
        },
{
    let mut s = String::new();
    s.append(target);
    match found {
        Some(p) => {
            s.append(" is ");
            s.append(p.as_str());
        },
        None => {
            s.append(": not found");
        },
    }
    s
}

proof fn lemma_literals()
    ensures
        "complete"@ == seq!['c', 'o', 'm', 'p', 'l', 'e', 't', 'e'],
        "-C"@ == seq!['-', 'C'],
        "-p"@ == seq!['-', 'p'],
        "exit"@ == seq!['e', 'x', 'i', 't'],
        "echo"@ == seq!['e', 'c', 'h', 'o'],
        "type"@ == seq!['t', 'y', 'p', 'e'],
        "pwd"@ == seq!['p', 'w', 'd'],
        "cd"@ == seq!['c', 'd'],
{
    reveal_strlit("complete");
    reveal_strlit("-C");
    reveal_strlit("-p");
    reveal_strlit("exit");
    reveal_strlit("echo");
    reveal_strlit("type");
    reveal_strlit("pwd");
    reveal_strlit("cd");
}

/// The words of a `complete` line, as `decide` sees them.
proof fn lemma_complete_line(ws: Seq<Seq<char>>)
    requires
        ws.len() >= 2,
        ws[0] == "complete"@,
        ws[1] == "-C"@ || ws[1] == "-p"@,
        forall|i: int| 0 <= i < ws.len() ==> is_plain_word(#[trigger] ws[i]),
        forall|i: int| 0 <= i < ws.len() ==> redirect_kind(#[trigger] ws[i]) is None,
    ensures
        split_redirections(crate::lexer::tokenize(trim(join_words(ws)))).parts == ws,
{
    lemma_trim_join_words(ws);
    lemma_tokenize_join_words(ws);
    crate::redirect::lemma_no_redirections(ws);
}

/// A word that a line can carry as it stands: plain, and no redirection
/// operator.
pub open spec fn is_simple_word(w: Seq<char>) -> bool {
    is_plain_word(w) && redirect_kind(w) is None
}

/// `complete -C script cmd` registers `script` as the completer of `cmd`,
/// in place of any other, and says nothing; `complete -p cmd` then shows
/// the registration as the command that makes it: `complete -C 'script' cmd`.
/// Any spacing between the words does the same (see
/// `lemma_extra_blank_ignored`).
pub proof fn lemma_register_then_show(reg: Map<Seq<char>, Seq<char>>, script: Seq<char>, cmd: Seq<char>)
    requires
        is_simple_word(script),
        is_simple_word(cmd),
    ensures
        decide(reg, join_words(seq!["complete"@, "-C"@, script, cmd])) == (reg.insert(cmd, script), ActionView::Nothing),
        decide(reg.insert(cmd, script), join_words(seq!["complete"@, "-p"@, cmd])) == (
            reg.insert(cmd, script),
            ActionView::Print("complete -C '"@ + script + "' "@ + cmd),
        ),
{
    lemma_literals();
    let ws1 = seq!["complete"@, "-C"@, script, cmd];
    let ws2 = seq!["complete"@, "-p"@, cmd];
    assert forall|i: int| 0 <= i < ws1.len() implies is_plain_word(#[trigger] ws1[i]) && redirect_kind(ws1[i]) is None by {
    }
    assert forall|i: int| 0 <= i < ws2.len() implies is_plain_word(#[trigger] ws2[i]) && redirect_kind(ws2[i]) is None by {
    }
    lemma_complete_line(ws1);
    lemma_complete_line(ws2);
}

/// `complete -p cmd` for a command with no completer registered says so on
/// standard error and changes nothing.
pub proof fn lemma_show_unregistered(reg: Map<Seq<char>, Seq<char>>, cmd: Seq<char>)
    requires
        is_simple_word(cmd),
        !reg.contains_key(cmd),
    ensures
        decide(reg, join_words(seq!["complete"@, "-p"@, cmd])) == (
            reg,
            ActionView::Complain("complete: "@ + cmd + ": no completion specification"@),
        ),
{
    lemma_literals();
    let ws2 = seq!["complete"@, "-p"@, cmd];
    assert forall|i: int| 0 <= i < ws2.len() implies is_plain_word(#[trigger] ws2[i]) && redirect_kind(ws2[i]) is None by {
    }
    lemma_complete_line(ws2);
}

/// `pwd` writes where the line's redirections say, as any command does:
/// the action carries exactly the targets that the line's words give.
pub proof fn lemma_pwd_keeps_redirections(reg: Map<Seq<char>, Seq<char>>, line: Seq<char>)
    requires
        split_redirections(crate::lexer::tokenize(trim(line))).parts.len() > 0,
        split_redirections(crate::lexer::tokenize(trim(line))).parts[0] == "pwd"@,
    ensures
        decide(reg, line) == (reg, ActionView::Pwd((
            split_redirections(crate::lexer::tokenize(trim(line))).stdout_target,
            split_redirections(crate::lexer::tokenize(trim(line))).stderr_target,
        ))),
{
    lemma_literals();
}

/// `pwd op file` (an operator such as `>` or `2>>`, and a simple file name)
/// sends the directory, or standard error, to that file: standard output
/// for `>`, `1>`, `>>`, `1>>`, standard error for `2>`, `2>>`, appending for
/// the doubled forms.
pub proof fn lemma_pwd_redirected(
    reg: Map<Seq<char>, Seq<char>>,
    op: Seq<char>,
    file: Seq<char>,
    to_err: bool,
    append: bool,
)
    requires
        is_plain_word(op),
        redirect_kind(op) == Some((to_err, append)),
        is_plain_word(file),
    ensures
        decide(reg, join_words(seq!["pwd"@, op, file])) == (reg, ActionView::Pwd(
            if to_err {
                (None, Some((file, append)))
            } else {
                (Some((file, append)), None)
            },
        )),
{
    lemma_literals();
    let ws = seq!["pwd"@, op, file];
    assert forall|i: int| 0 <= i < ws.len() implies is_plain_word(#[trigger] ws[i]) by {
    }
    lemma_trim_join_words(ws);
    lemma_tokenize_join_words(ws);
    let a = seq!["pwd"@];
    assert forall|i: int| 0 <= i < a.len() implies redirect_kind(#[trigger] a[i]) is None by {
    }
    let b = Seq::<Seq<char>>::empty();
    crate::redirect::lemma_redirection_pair_removed(a, op, file, b, to_err, append);
    assert(a + seq![op, file] + b =~= ws);
    assert(a + b =~= a);
}

/// `echo` with plain words and then an operator and a file name writes the
/// words, one space apart, to where the operator says.
pub proof fn lemma_echo_redirected(
    reg: Map<Seq<char>, Seq<char>>,
    words: Seq<Seq<char>>,
    op: Seq<char>,
    file: Seq<char>,
    to_err: bool,
    append: bool,
)
    requires
        forall|i: int| 0 <= i < words.len() ==> is_simple_word(#[trigger] words[i]),
        is_plain_word(op),
        redirect_kind(op) == Some((to_err, append)),
        is_plain_word(file),
    ensures
        decide(reg, join_words(seq!["echo"@] + words + seq![op, file])) == (reg, ActionView::Echo(
            join_sep(words, " "@),
            if to_err {
                (None, Some((file, append)))
            } else {
                (Some((file, append)), None)
            },
        )),
{
    lemma_literals();
    let a = seq!["echo"@] + words;
    let ws = a + seq![op, file];
    assert forall|i: int| 0 <= i < ws.len() implies is_plain_word(#[trigger] ws[i]) by {
        if 1 <= i < a.len() {
            assert(ws[i] == words[i - 1]);
            assert(is_simple_word(words[i - 1]));
        }
    }
    assert forall|i: int| 0 <= i < a.len() implies redirect_kind(#[trigger] a[i]) is None by {
        if i >= 1 {
            assert(a[i] == words[i - 1]);
            assert(is_simple_word(words[i - 1]));
        }
    }
    lemma_trim_join_words(ws);
    lemma_tokenize_join_words(ws);
    let b = Seq::<Seq<char>>::empty();
    crate::redirect::lemma_redirection_pair_removed(a, op, file, b, to_err, append);
    assert(a + seq![op, file] + b =~= ws);
    assert(a + b =~= a);
    assert(a.skip(1) =~= words);
}

} // verus!
