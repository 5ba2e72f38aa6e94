//! Output redirections in a command's words.
use vstd::prelude::*;

use crate::text::{chars_eq, chars_of, views};

verus! {

/// Where a command's standard output and standard error go: a file name,
/// and whether to append to it (`true`) or truncate it (`false`).
#[derive(Debug, Clone)]
pub struct Redirection {
    pub stdout_target: Option<(String, bool)>,
    pub stderr_target: Option<(String, bool)>,
}

/// A redirection target as a mathematical value.
pub open spec fn target_view(t: Option<(String, bool)>) -> Option<(Seq<char>, bool)> {
    match t {
        Some((name, append)) => Some((name@, append)),
        None => None,
    }
}

/// The command words and redirections of a command line as mathematical values.
pub struct SplitView {
    pub parts: Seq<Seq<char>>,
    pub stdout_target: Option<(Seq<char>, bool)>,
    pub stderr_target: Option<(Seq<char>, bool)>,
}

/// The redirection operator that `tok` is: `Some((to_stderr, append))`.
pub open spec fn redirect_kind(tok: Seq<char>) -> Option<(bool, bool)> {
    if tok == seq!['>', '>'] || tok == seq!['1', '>', '>'] {
        Some((false, true))
    } else if tok == seq!['>'] || tok == seq!['1', '>'] {
        Some((false, false))
    } else if tok == seq!['2', '>', '>'] {
        Some((true, true))
    } else if tok == seq!['2', '>'] {
        Some((true, false))
    } else {
        None
    }
}

/// Splits words into command words and redirections: an operator followed
/// by a word sends that stream to the file the word names (the last such
/// operator for a stream wins); an operator with nothing after it is an
/// ordinary word.
pub open spec fn split_redirections(toks: Seq<Seq<char>>) -> SplitView
    decreases toks.len(),
{
    if toks.len() == 0 {
        SplitView { parts: Seq::empty(), stdout_target: None, stderr_target: None }
    } else {
        match redirect_kind(toks[0]) {
            Some((to_err, append)) if toks.len() >= 2 => {
                let rest = split_redirections(toks.skip(2));
                if to_err {
                    SplitView {
                        stderr_target: if rest.stderr_target is Some {
                            rest.stderr_target
                        } else {
                            Some((toks[1], append))
                        },
                        ..rest
                    }
                } else {
                    SplitView {
                        stdout_target: if rest.stdout_target is Some {
                            rest.stdout_target
                        } else {
                            Some((toks[1], append))
                        },
                        ..rest
                    }
                }
            },
            _ => {
                let rest = split_redirections(toks.skip(1));
                SplitView { parts: seq![toks[0]] + rest.parts, ..rest }
            },
        }
    }
}

/// What was split off before, followed by what the rest splits into.
pub open spec fn merge(acc: SplitView, rest: SplitView) -> SplitView {
    SplitView {
        parts: acc.parts + rest.parts,
        stdout_target: if rest.stdout_target is Some {
            rest.stdout_target
        } else {
            acc.stdout_target
        },
        stderr_target: if rest.stderr_target is Some {
            rest.stderr_target
        } else {
            acc.stderr_target
        },
    }
}

/// Words with no redirection operator among them are all command words.
pub proof fn lemma_no_redirections(toks: Seq<Seq<char>>)
    requires
        forall|i: int| 0 <= i < toks.len() ==> redirect_kind(#[trigger] toks[i]) is None,
    ensures
        split_redirections(toks) == (SplitView { parts: toks, stdout_target: None, stderr_target: None }),
    decreases toks.len(),
{
    if toks.len() > 0 {
        let rest = toks.skip(1);
        assert forall|i: int| 0 <= i < rest.len() implies redirect_kind(#[trigger] rest[i]) is None by {
            assert(rest[i] == toks[i + 1]);
        }
        lemma_no_redirections(rest);
        assert(redirect_kind(toks[0]) is None);
        assert(seq![toks[0]] + rest =~= toks);
    } else {
        assert(toks =~= Seq::<Seq<char>>::empty());
    }
}

/// The operators: `>` and `1>` send standard output to a file, truncating
/// it; `>>` and `1>>` append to it; `2>` and `2>>` do the same for
/// standard error; no other word is an operator.
pub proof fn lemma_operator_meanings(tok: Seq<char>)
    ensures
        redirect_kind(">"@) == Some((false, false)),
        redirect_kind("1>"@) == Some((false, false)),
        redirect_kind(">>"@) == Some((false, true)),
        redirect_kind("1>>"@) == Some((false, true)),
        redirect_kind("2>"@) == Some((true, false)),
        redirect_kind("2>>"@) == Some((true, true)),
        redirect_kind(tok) is Some ==> (tok == ">"@ || tok == "1>"@ || tok == ">>"@ || tok == "1>>"@
            || tok == "2>"@ || tok == "2>>"@),
{
    reveal_strlit(">");
    reveal_strlit("1>");
    reveal_strlit(">>");
    reveal_strlit("1>>");
    reveal_strlit("2>");
    reveal_strlit("2>>");
    assert(">"@ =~= seq!['>']);
    assert("1>"@ =~= seq!['1', '>']);
    assert(">>"@ =~= seq!['>', '>']);
    assert("1>>"@ =~= seq!['1', '>', '>']);
    assert("2>"@ =~= seq!['2', '>']);
    assert("2>>"@ =~= seq!['2', '>', '>']);
}

/// An operator and its target, put anywhere among words that hold no
/// operator, redirect that stream to the target and leave every other word,
/// in its order, as the command's words.
pub proof fn lemma_redirection_pair_removed(
    a: Seq<Seq<char>>,
    op: Seq<char>,
    t: Seq<char>,
    b: Seq<Seq<char>>,
    to_err: bool,
    append: bool,
)
    requires
        forall|i: int| 0 <= i < a.len() ==> redirect_kind(#[trigger] a[i]) is None,
        forall|i: int| 0 <= i < b.len() ==> redirect_kind(#[trigger] b[i]) is None,
        redirect_kind(op) == Some((to_err, append)),
    ensures
        split_redirections(a + seq![op, t] + b) == (SplitView {
            parts: a + b,
            stdout_target: if to_err { None } else { Some((t, append)) },
            stderr_target: if to_err { Some((t, append)) } else { None },
        }),
    decreases a.len(),
{
    let all = a + seq![op, t] + b;
    if a.len() == 0 {
        assert(all =~= seq![op, t] + b);
        assert(all.skip(2) =~= b);
        lemma_no_redirections(b);
        assert(a + b =~= b);
    } else {
        let a1 = a.skip(1);
        assert forall|i: int| 0 <= i < a1.len() implies redirect_kind(#[trigger] a1[i]) is None by {
            assert(a1[i] == a[i + 1]);
        }
        lemma_redirection_pair_removed(a1, op, t, b, to_err, append);
        assert(all[0] == a[0]);
        assert(redirect_kind(a[0]) is None);
        assert(all.skip(1) =~= a1 + seq![op, t] + b);
        assert(seq![a[0]] + (a1 + b) =~= a + b);
    }
}

/// The redirection operator that `tok` is, if it is one.
pub fn redirect_kind_of(tok: &String) -> (res: Option<(bool, bool)>)
    ensures
        res == redirect_kind(tok@),
{
    let cs = chars_of(tok.as_str());
    let a1 = ['>', '>'];
    let a2 = ['1', '>', '>'];
    let w1 = ['>'];
    let w2 = ['1', '>'];
    let e1 = ['2', '>', '>'];
    let e2 = ['2', '>'];
    assert(a1@ == seq!['>', '>']);
    assert(a2@ == seq!['1', '>', '>']);
    assert(w1@ == seq!['>']);
    assert(w2@ == seq!['1', '>']);
    assert(e1@ == seq!['2', '>', '>']);
    assert(e2@ == seq!['2', '>']);
    if chars_eq(cs.as_slice(), &a1) || chars_eq(cs.as_slice(), &a2) {
        Some((false, true))
    } else if chars_eq(cs.as_slice(), &w1) || chars_eq(cs.as_slice(), &w2) {
        Some((false, false))
    } else if chars_eq(cs.as_slice(), &e1) {
        Some((true, true))
    } else if chars_eq(cs.as_slice(), &e2) {
        Some((true, false))
    } else {
        None
    }
}

/// Splits a command line into its command words and its output
/// redirections (`>`, `1>`, `>>`, `1>>` for standard output; `2>`, `2>>`
/// for standard error; the doubled forms append).
pub fn parse_with_redirection(input: &str) -> (res: (Vec<String>, Redirection))
    ensures
        split_redirections(crate::lexer::tokenize(input@)) == (SplitView {
            parts: views(res.0@),
            stdout_target: target_view(res.1.stdout_target),
            stderr_target: target_view(res.1.stderr_target),
        }),
{
    let tokens = crate::lexer::parse_command_with_quotes(input);
    let ghost toks = views(tokens@);
    let mut command_parts: Vec<String> = Vec::new();
    let mut redirection = Redirection { stdout_target: None, stderr_target: None };
    let mut i: usize = 0;
    assert(toks.skip(0) =~= toks);
    assert(views(command_parts@) =~= Seq::<Seq<char>>::empty());
    while i < tokens.len()
        invariant
            i <= tokens@.len(),
            toks == views(tokens@),
            toks == crate::lexer::tokenize(input@),
            split_redirections(toks) == merge(
                SplitView {
                    parts: views(command_parts@),
                    stdout_target: target_view(redirection.stdout_target),
                    stderr_target: target_view(redirection.stderr_target),
                },
                split_redirections(toks.skip(i as int)),
            ),
        decreases tokens@.len() - i,
    {
        let ghost rest = toks.skip(i as int);
        assert(rest[0] == tokens@[i as int]@);
        let kind = redirect_kind_of(&tokens[i]);
        match kind {
            Some((to_err, append)) if i + 1 < tokens.len() => {
                let target = tokens[i + 1].clone();
                assert(rest[1] == target@);
                assert(rest.skip(2) =~= toks.skip(i + 2));
                if to_err {
                    redirection.stderr_target = Some((target, append));
                } else {
                    redirection.stdout_target = Some((target, append));
                }
                i += 2;
            },
            _ => {
                let w = tokens[i].clone();
                let ghost before = views(command_parts@);
                command_parts.push(w);
                assert(views(command_parts@) =~= before.push(rest[0]));
                assert(rest.skip(1) =~= toks.skip(i + 1));
                assert(before.push(rest[0]) + split_redirections(toks.skip(i + 1)).parts
                    =~= before + (seq![rest[0]] + split_redirections(toks.skip(i + 1)).parts));
                i += 1;
            },
        }
    }
    assert(toks.skip(i as int) =~= Seq::<Seq<char>>::empty());
    assert(views(command_parts@) + Seq::<Seq<char>>::empty() =~= views(command_parts@));
    (command_parts, redirection)
}

} // verus!
