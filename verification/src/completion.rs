//! Tab completion at the prompt: what to complete, and what each press of
//! the tab key does, remembering the previous press.
use vstd::prelude::*;
use vstd::string::StringExecFns;

use crate::matching::{
    entry_names, entry_views, lcp_spec, longest_common_prefix,
    longest_common_prefix_files,
};
use crate::paths::opt_view;
use crate::text::{chars_of, join_sep, join_strings, push_char, str_eq, string_of, views};

verus! {

/// One completion offered: what to show, and the text that replaces the
/// word being completed.
pub struct Candidate {
    pub display: String,
    pub replacement: String,
}

/// What the terminal is to do besides completing.
pub enum Effect {
    /// Nothing.
    Quiet,
    /// Ring the bell.
    Bell,
    /// Write this text (the matches on a line of their own, then the prompt
    /// and the line again).
    Show(String),
}

/// The answer to a press of the tab key: the candidates replace the line
/// from character `start` up to the cursor.
pub struct Reply {
    pub start: usize,
    pub candidates: Vec<Candidate>,
    pub effect: Effect,
}

/// What the previous press of the tab key left behind: the line, the
/// directory and prefix completed (empty for a command), the matches, and
/// whether that press was the first in its context.
pub struct TabMemory {
    pub line: String,
    pub dir: String,
    pub prefix: String,
    pub matches: Vec<(String, bool)>,
    pub first: bool,
}

/// The completion of a file name: the directory to look in, the start of the
/// name typed so far, what goes before the name in the replacement, and
/// where the word starts (in characters).
pub struct FileRequest {
    pub dir: String,
    pub prefix: String,
    pub base: String,
    pub start: usize,
}

/// What a press of the tab key asks for, from the text before the cursor.
pub enum Request {
    /// Nothing typed yet: nothing to complete.
    Nothing,
    /// Complete the command word, typed so far.
    Command(String),
    /// Complete a file name in an argument.
    Files(FileRequest),
}

pub enum EffectView {
    Quiet,
    Bell,
    Show(Seq<char>),
}

/// A reply as a mathematical value.
pub struct ReplyView {
    pub start: int,
    pub candidates: Seq<(Seq<char>, Seq<char>)>,
    pub effect: EffectView,
}

/// The memory of the previous press as a mathematical value.
pub type MemoryView = Option<(Seq<char>, Seq<char>, Seq<char>, Seq<(Seq<char>, bool)>, bool)>;

pub open spec fn effect_view(e: Effect) -> EffectView {
    match e {
        Effect::Quiet => EffectView::Quiet,
        Effect::Bell => EffectView::Bell,
        Effect::Show(s) => EffectView::Show(s@),
    }
}

pub open spec fn reply_view(r: Reply) -> ReplyView {
    ReplyView {
        start: r.start as int,
        candidates: r.candidates@.map_values(|c: Candidate| (c.display@, c.replacement@)),
        effect: effect_view(r.effect),
    }
}

pub open spec fn memory_view(m: Option<TabMemory>) -> MemoryView {
    match m {
        Some(t) => Some((t.line@, t.dir@, t.prefix@, entry_views(t.matches@), t.first)),
        None => None,
    }
}

/// The index of the last `c` in `s`, if any.
pub open spec fn last_index_of(s: Seq<char>, c: char) -> Option<int>
    decreases s.len(),
{
    if s.len() == 0 {
        None
    } else if s.last() == c {
        Some(s.len() - 1)
    } else {
        last_index_of(s.drop_last(), c)
    }
}

/// What completing `before` (the text before the cursor) asks for. After a
/// space, the word after the last space is a file name, looked up in the
/// directory it names up to its last `/` (the current directory when it has
/// none); with no space, the text is a command word.
pub open spec fn plan(before: Seq<char>) -> (int, Seq<char>, Seq<char>, Seq<char>, Seq<char>) {
    // (kind, dir, prefix, base, word): kind 0 nothing, 1 command, 2 files
    match last_index_of(before, ' ') {
        Some(k) => {
            let partial = before.skip(k + 1);
            match last_index_of(partial, '/') {
                Some(j) => (2, partial.take(j + 1), partial.skip(j + 1), partial.take(j + 1), partial),
                None => (2, seq!['.'], partial, Seq::empty(), partial),
            }
        },
        None => if before.len() == 0 {
            (0, Seq::empty(), Seq::empty(), Seq::empty(), Seq::empty())
        } else {
            (1, Seq::empty(), Seq::empty(), Seq::empty(), before)
        },
    }
}

/// `last_index_of` finds the last occurrence: nothing after it is `c`, and
/// when it finds none there is no `c` at all.
pub proof fn lemma_last_index_of(s: Seq<char>, c: char)
    ensures
        match last_index_of(s, c) {
            Some(k) => 0 <= k < s.len() && s[k] == c && forall|j: int| k < j < s.len() ==> #[trigger] s[j] != c,
            None => forall|j: int| 0 <= j < s.len() ==> #[trigger] s[j] != c,
        },
    decreases s.len(),
{
    if s.len() > 0 && s.last() != c {
        lemma_last_index_of(s.drop_last(), c);
        assert forall|j: int| 0 <= j < s.len() - 1 implies #[trigger] s[j] == s.drop_last()[j] by {}
    }
}

/// What a press of the tab key completes: with nothing typed, nothing; with
/// no space typed, the whole text as the command word; otherwise the file
/// name after the last space, split at its last `/` into the directory part
/// (which is also what the replacement starts with) and the prefix of the
/// name, which holds no `/`; with no `/`, the name is looked up in `.`.
pub proof fn lemma_plan(before: Seq<char>)
    ensures
        plan(before).0 == 0 <==> before.len() == 0,
        plan(before).0 == 1 ==> plan(before).4 == before && forall|j: int| 0 <= j < before.len() ==> #[trigger] before[j] != ' ',
        plan(before).0 == 2 ==> exists|k: int|
            0 <= k < before.len() && #[trigger] before[k] == ' '
                && (forall|j: int| k < j < before.len() ==> #[trigger] before[j] != ' ')
                && before.skip(k + 1) == plan(before).3 + plan(before).2,
        plan(before).0 == 2 ==> forall|i: int| 0 <= i < plan(before).2.len() ==> #[trigger] plan(before).2[i] != '/',
        plan(before).0 == 2 ==> plan(before).3.len() == 0 || plan(before).3.last() == '/',
        plan(before).0 == 2 ==> plan(before).1 == if plan(before).3.len() == 0 {
            seq!['.']
        } else {
            plan(before).3
        },
{
    lemma_last_index_of(before, ' ');
    match last_index_of(before, ' ') {
        Some(k) => {
            let partial = before.skip(k + 1);
            lemma_last_index_of(partial, '/');
            match last_index_of(partial, '/') {
                Some(j) => {
                    assert(partial.take(j + 1) + partial.skip(j + 1) =~= partial);
                    assert forall|i: int| 0 <= i < partial.skip(j + 1).len() implies #[trigger] partial.skip(j + 1)[i] != '/' by {
                        assert(partial.skip(j + 1)[i] == partial[i + j + 1]);
                    }
                    assert(partial.take(j + 1).last() == partial[j]);
                },
                None => {
                    assert(Seq::<char>::empty() + partial =~= partial);
                },
            }
        },
        None => {},
    }
}

/// Index of the last `c` in `s`, if any.
fn last_index(s: &[char], c: char) -> (res: Option<usize>)
    ensures
        match res {
            Some(i) => last_index_of(s@, c) == Some(i as int) && i < s@.len() && s@[i as int] == c,
            None => last_index_of(s@, c) is None,
        },
{
    let mut i: usize = s.len();
    assert(s@.take(s@.len() as int) =~= s@);
    while i > 0 && s[i - 1] != c
        invariant
            i <= s@.len(),
            last_index_of(s@, c) == last_index_of(s@.take(i as int), c),
        decreases i,
    {
        assert(s@.take(i as int).drop_last() =~= s@.take(i - 1));
        i -= 1;
    }
    assert(s@.take(s@.len() as int) =~= s@);
    if i == 0 {
        assert(s@.take(0) =~= Seq::<char>::empty());
        None
    } else {
        assert(s@.take(i as int).last() == s@[i - 1]);
        Some(i - 1)
    }
}

/// What completing the text `before` the cursor asks for.
pub fn plan_completion(before: &str) -> (res: Request)
    ensures
        ({
            let p = plan(before@);
            match res {
                Request::Nothing => p.0 == 0,
                Request::Command(w) => p.0 == 1 && w@ == p.4,
                Request::Files(f) => {
                    &&& p.0 == 2
                    &&& f.dir@ == p.1
                    &&& f.prefix@ == p.2
                    &&& f.base@ == p.3
                    &&& last_index_of(before@, ' ') == Some(f.start - 1)
                },
            }
        }),
{
    let cs = chars_of(before);
    match last_index(cs.as_slice(), ' ') {
        Some(k) => {
            let n = cs.len();
            assert(k < n);
            let partial = &cs.as_slice()[k + 1..n];
            assert(partial@ =~= cs@.skip(k + 1));
            match last_index(partial, '/') {
                Some(j) => {
                    let dir = string_of(&partial[0..j + 1]);
                    let prefix = string_of(&partial[j + 1..partial.len()]);
                    let base = string_of(&partial[0..j + 1]);
                    assert(partial@.subrange(0, j + 1) =~= partial@.take(j + 1));
                    assert(partial@.subrange(j + 1, partial@.len() as int) =~= partial@.skip(j + 1));
                    Request::Files(FileRequest { dir, prefix, base, start: k + 1 })
                },
                None => {
                    let dot = ['.'];
                    let dir = string_of(&dot);
                    let prefix = string_of(partial);
                    Request::Files(FileRequest { dir, prefix, base: String::new(), start: k + 1 })
                },
            }
        },
        None => {
            if cs.len() == 0 {
                Request::Nothing
            } else {
                Request::Command(string_of(cs.as_slice()))
            }
        },
    }
}

/// The matches one per two spaces, on a line of their own, followed by the
/// prompt and the line again.
pub open spec fn listing(items: Seq<Seq<char>>, line: Seq<char>) -> Seq<char> {
    seq!['\n'] + join_sep(items, seq![' ', ' ']) + seq!['\n', '$', ' '] + line
}

/// How a file match is listed: directories with a `/` after the name.
pub open spec fn shown_name(e: (Seq<char>, bool)) -> Seq<char> {
    if e.1 {
        e.0.push('/')
    } else {
        e.0
    }
}

pub open spec fn quiet(start: int, candidates: Seq<(Seq<char>, Seq<char>)>) -> ReplyView {
    ReplyView { start, candidates, effect: EffectView::Quiet }
}

/// A press of the tab key on a file name (`files_step`'s parameters are
/// those of `FileRequest`, the cursor's position, and the matching entries
/// in order): no match leaves the line as it is; one match completes it, a
/// directory with `/`, a file with a space; with several, the first press
/// in a context (line, directory, prefix) completes their common prefix
/// when it is longer than what was typed and rings the bell otherwise, and
/// the next presses list them.
pub open spec fn files_step(
    mem: MemoryView,
    line: Seq<char>,
    dir: Seq<char>,
    prefix: Seq<char>,
    base: Seq<char>,
    start: int,
    cursor: int,
    ms: Seq<(Seq<char>, bool)>,
) -> (MemoryView, ReplyView) {
    if ms.len() == 0 {
        (None, quiet(cursor, Seq::empty()))
    } else if ms.len() == 1 {
        let name = ms[0].0;
        let tail = if ms[0].1 {
            seq!['/']
        } else {
            seq![' ']
        };
        (None, quiet(start, seq![(name, base + name + tail)]))
    } else {
        let lcp = lcp_spec(names_of(ms));
        let first = match mem {
            None => true,
            Some(m) => !(m.0 == line && m.1 == dir && m.2 == prefix),
        };
        if first {
            let mem2 = Some((line, dir, prefix, ms, true));
            if lcp.len() > prefix.len() {
                (mem2, quiet(start, seq![(lcp, base + lcp)]))
            } else {
                (mem2, ReplyView { start: cursor, candidates: Seq::empty(), effect: EffectView::Bell })
            }
        } else {
            (
                Some((line, dir, prefix, ms, false)),
                ReplyView {
                    start: cursor,
                    candidates: Seq::empty(),
                    effect: EffectView::Show(listing(ms.map_values(|e: (Seq<char>, bool)| shown_name(e)), line)),
                },
            )
        }
    }
}

/// The names of entries.
pub open spec fn names_of(es: Seq<(Seq<char>, bool)>) -> Seq<Seq<char>> {
    es.map_values(|e: (Seq<char>, bool)| e.0)
}

/// The commands as entries that are no directories.
pub open spec fn as_entries(ms: Seq<Seq<char>>) -> Seq<(Seq<char>, bool)> {
    ms.map_values(|m: Seq<char>| (m, false))
}

/// A press of the tab key on the command word `word` (the matching commands
/// `ms` in order): no match leaves the line as it is; one match completes
/// it with a space after; with several, the first press in a context (line
/// and matches) completes their common prefix when it is longer than the
/// word and rings the bell otherwise, and the next presses list them.
pub open spec fn command_step(mem: MemoryView, line: Seq<char>, word: Seq<char>, cursor: int, ms: Seq<Seq<char>>) -> (MemoryView, ReplyView) {
    if ms.len() == 0 {
        (None, quiet(cursor, Seq::empty()))
    } else if ms.len() == 1 {
        (None, quiet(0, seq![(ms[0], ms[0].push(' '))]))
    } else {
        let lcp = lcp_spec(ms);
        let first = match mem {
            None => true,
            Some(m) => !(m.0 == line && names_of(m.3) == ms),
        };
        if first {
            let mem2 = Some((line, Seq::empty(), Seq::empty(), as_entries(ms), true));
            if lcp.len() > word.len() {
                (mem2, quiet(0, seq![(lcp, lcp)]))
            } else {
                (mem2, ReplyView { start: cursor, candidates: Seq::empty(), effect: EffectView::Bell })
            }
        } else {
            (
                Some((line, Seq::empty(), Seq::empty(), as_entries(ms), false)),
                ReplyView { start: cursor, candidates: Seq::empty(), effect: EffectView::Show(listing(ms, line)) },
            )
        }
    }
}

/// The text that lists `items` under the line: a newline, the items two
/// spaces apart, a newline, and the prompt with `line`.
fn listing_text(items: &[String], line: &str) -> (res: String)
    ensures
        res@ == listing(views(items@), line@),
{
    let joined = join_strings(items, "  ");
    let mut text = String::new();
    push_char(&mut text, '\n');
    text.append(joined.as_str());
    push_char(&mut text, '\n');
    push_char(&mut text, '$');
    push_char(&mut text, ' ');
    text.append(line);
    proof {
        reveal_strlit("  ");
        assert("  "@ =~= seq![' ', ' ']);
        assert(text@ =~= listing(views(items@), line@));
    }
    text
}

/// A reply that leaves the line as it is.
fn no_change(cursor: usize, effect: Effect) -> (res: Reply)
    ensures
        reply_view(res) == (ReplyView { start: cursor as int, candidates: Seq::empty(), effect: effect_view(effect) }),
{
    let r = Reply { start: cursor, candidates: Vec::new(), effect };
    assert(reply_view(r).candidates =~= Seq::<(Seq<char>, Seq<char>)>::empty());
    r
}

/// A reply that offers one candidate.
fn offer(start: usize, display: String, replacement: String) -> (res: Reply)
    ensures
        reply_view(res) == quiet(start as int, seq![(display@, replacement@)]),
{
    let mut candidates: Vec<Candidate> = Vec::new();
    candidates.push(Candidate { display, replacement });
    let r = Reply { start, candidates, effect: Effect::Quiet };
    assert(reply_view(r).candidates =~= seq![(display@, replacement@)]);
    r
}

/// Answers a press of the tab key on a file name, given the entries that
/// match it in order (see `select_completions`), and remembers the press.
pub fn complete_files(
    memory: &mut Option<TabMemory>,
    line: &str,
    req: &FileRequest,
    cursor: usize,
    matches: Vec<(String, bool)>,
) -> (res: Reply)
    ensures
        (memory_view(*final(memory)), reply_view(res)) == files_step(
            memory_view(*old(memory)),
            line@,
            req.dir@,
            req.prefix@,
            req.base@,
            req.start as int,
            cursor as int,
            entry_views(matches@),
        ),
{
    let ghost ms = entry_views(matches@);
    if matches.len() == 0 {
        *memory = None;
        return no_change(cursor, Effect::Quiet);
    }
    if matches.len() == 1 {
        *memory = None;
        let name = matches[0].0.clone();
        let mut replacement = String::new();
        replacement.append(req.base.as_str());
        replacement.append(name.as_str());
        if matches[0].1 {
            push_char(&mut replacement, '/');
        } else {
            push_char(&mut replacement, ' ');
        }
        assert(ms[0] == (matches@[0].0@, matches@[0].1));
        assert(replacement@ =~= req.base@ + ms[0].0 + (if ms[0].1 { seq!['/'] } else { seq![' '] }));
        return offer(req.start, name, replacement);
    }
    let lcp = longest_common_prefix_files(matches.as_slice());
    assert(entry_names(matches@) =~= names_of(ms));
    let first = match &*memory {
        None => true,
        Some(m) => !(str_eq(m.line.as_str(), line) && str_eq(m.dir.as_str(), req.dir.as_str()) && str_eq(
            m.prefix.as_str(),
            req.prefix.as_str(),
        )),
    };
    if first {
        let longer = chars_of(lcp.as_str()).len() > chars_of(req.prefix.as_str()).len();
        *memory = Some(
            TabMemory {
                line: String::from_str(line),
                dir: req.dir.clone(),
                prefix: req.prefix.clone(),
                matches,
                first: true,
            },
        );
        if longer {
            let mut replacement = String::new();
            replacement.append(req.base.as_str());
            replacement.append(lcp.as_str());
            offer(req.start, lcp, replacement)
        } else {
            no_change(cursor, Effect::Bell)
        }
    } else {
        let mut items: Vec<String> = Vec::new();
        let mut i: usize = 0;
        while i < matches.len()
            invariant
                i <= matches@.len(),
                ms == entry_views(matches@),
                views(items@) =~= ms.map_values(|e: (Seq<char>, bool)| shown_name(e)).take(i as int),
            decreases matches@.len() - i,
        {
            let mut name = matches[i].0.clone();
            if matches[i].1 {
                push_char(&mut name, '/');
            }
            let ghost before = views(items@);
            items.push(name);
            assert(views(items@) =~= before.push(shown_name(ms[i as int])));
            assert(ms.map_values(|e: (Seq<char>, bool)| shown_name(e)).take(i + 1) =~= ms.map_values(
                |e: (Seq<char>, bool)| shown_name(e),
            ).take(i as int).push(shown_name(ms[i as int])));
            i += 1;
        }
        assert(ms.map_values(|e: (Seq<char>, bool)| shown_name(e)).take(matches@.len() as int)
            =~= ms.map_values(|e: (Seq<char>, bool)| shown_name(e)));
        let text = listing_text(items.as_slice(), line);
        *memory = Some(
            TabMemory {
                line: String::from_str(line),
                dir: req.dir.clone(),
                prefix: req.prefix.clone(),
                matches,
                first: false,
            },
        );
        no_change(cursor, Effect::Show(text))
    }
}

/// Answers a press of the tab key on the command word `word`, given the
/// commands that match it in order (see `command_matches`), and remembers
/// the press.
pub fn complete_command(
    memory: &mut Option<TabMemory>,
    line: &str,
    word: &str,
    cursor: usize,
    matches: Vec<String>,
) -> (res: Reply)
    ensures
        (memory_view(*final(memory)), reply_view(res)) == command_step(
            memory_view(*old(memory)),
            line@,
            word@,
            cursor as int,
            views(matches@),
        ),
{
    let ghost ms = views(matches@);
    if matches.len() == 0 {
        *memory = None;
        return no_change(cursor, Effect::Quiet);
    }
    if matches.len() == 1 {
        *memory = None;
        let name = matches[0].clone();
        let mut replacement = matches[0].clone();
        push_char(&mut replacement, ' ');
        return offer(0, name, replacement);
    }
    let lcp = longest_common_prefix(matches.as_slice());
    let first = match &*memory {
        None => true,
        Some(m) => {
            let mut same = str_eq(m.line.as_str(), line) && m.matches.len() == matches.len();
            let mut i: usize = 0;
            let ghost names = names_of(entry_views(m.matches@));
            while same && i < matches.len()
                invariant
                    i <= matches@.len(),
                    ms == views(matches@),
                    names == names_of(entry_views(m.matches@)),
                    same ==> names.len() == ms.len() && m.line@ == line@,
                    same ==> forall|k: int| 0 <= k < i ==> names[k] == ms[k],
                    !same ==> !(m.line@ == line@ && names == ms),
                decreases matches@.len() - i,
            {
                if !str_eq(m.matches[i].0.as_str(), matches[i].as_str()) {
                    assert(names[i as int] != ms[i as int]);
                    same = false;
                }
                i += 1;
            }
            if same {
                assert(names =~= ms);
            }
            !same
        },
    };
    let mut stored: Vec<(String, bool)> = Vec::new();
    let mut i: usize = 0;
    while i < matches.len()
        invariant
            i <= matches@.len(),
            ms == views(matches@),
            entry_views(stored@) =~= as_entries(ms).take(i as int),
        decreases matches@.len() - i,
    {
        let ghost before = entry_views(stored@);
        stored.push((matches[i].clone(), false));
        assert(entry_views(stored@) =~= before.push((ms[i as int], false)));
        assert(as_entries(ms).take(i + 1) =~= as_entries(ms).take(i as int).push((ms[i as int], false)));
        i += 1;
    }
    assert(as_entries(ms).take(matches@.len() as int) =~= as_entries(ms));
    if first {
        let longer = chars_of(lcp.as_str()).len() > chars_of(word).len();
        *memory = Some(
            TabMemory {
                line: String::from_str(line),
                dir: String::new(),
                prefix: String::new(),
                matches: stored,
                first: true,
            },
        );
        if longer {
            let replacement = lcp.clone();
            offer(0, lcp, replacement)
        } else {
            no_change(cursor, Effect::Bell)
        }
    } else {
        let text = listing_text(matches.as_slice(), line);
        *memory = Some(
            TabMemory {
                line: String::from_str(line),
                dir: String::new(),
                prefix: String::new(),
                matches: stored,
                first: false,
            },
        );
        no_change(cursor, Effect::Show(text))
    }
}

/// The index of the first `c` in `s`, if any.
pub open spec fn first_index_of(s: Seq<char>, c: char) -> Option<int>
    decreases s.len(),
{
    if s.len() == 0 {
        None
    } else if s[0] == c {
        Some(0)
    } else {
        match first_index_of(s.drop_first(), c) {
            Some(i) => Some(i + 1),
            None => None,
        }
    }
}

/// The first line of `text`, as `str::lines` gives it: up to the first
/// newline, without a carriage return just before it; none for empty text.
pub open spec fn first_line_spec(text: Seq<char>) -> Option<Seq<char>> {
    if text.len() == 0 {
        None
    } else {
        match first_index_of(text, '\n') {
            Some(k) => {
                let line = text.take(k);
                if line.len() > 0 && line.last() == '\r' {
                    Some(line.drop_last())
                } else {
                    Some(line)
                }
            },
            None => Some(text),
        }
    }
}

/// The first line of `text` (the first item of `str::lines`).
pub fn first_line(text: &str) -> (res: Option<String>)
    ensures
        opt_view(res) == first_line_spec(text@),
{
    let cs = chars_of(text);
    if cs.len() == 0 {
        return None;
    }
    let mut i: usize = 0;
    assert(cs@.skip(0) =~= cs@);
    while i < cs.len() && cs[i] != '\n'
        invariant
            i <= cs@.len(),
            cs@ == text@,
            first_index_of(cs@, '\n') == match first_index_of(cs@.skip(i as int), '\n') {
                Some(j) => Some(j + i),
                None => None,
            },
        decreases cs@.len() - i,
    {
        assert(cs@.skip(i as int).drop_first() =~= cs@.skip(i + 1));
        i += 1;
    }
    if i == cs.len() {
        assert(cs@.skip(i as int) =~= Seq::<char>::empty());
        return Some(string_of(cs.as_slice()));
    }
    assert(cs@.skip(i as int)[0] == '\n');
    let mut end = i;
    if end > 0 && cs[end - 1] == '\r' {
        end -= 1;
    }
    let line = string_of(&cs.as_slice()[0..end]);
    assert(cs@.subrange(0, end as int) =~= if i > 0 && cs@[i - 1] == '\r' {
        cs@.take(i as int).drop_last()
    } else {
        cs@.take(i as int)
    });
    Some(line)
}

/// The reply built from what a registered completer script wrote: its
/// first line, with a space after it, inserted at the cursor; none when it
/// wrote nothing.
pub fn completer_reply(output: &str, cursor: usize) -> (res: Option<Reply>)
    ensures
        match first_line_spec(output@) {
            Some(l) => res is Some && reply_view(res->0) == quiet(cursor as int, seq![(l, l.push(' '))]),
            None => res is None,
        },
{
    match first_line(output) {
        Some(l) => {
            let mut replacement = l.clone();
            push_char(&mut replacement, ' ');
            Some(offer(cursor, l, replacement))
        },
        None => None,
    }
}

/// With several matches, a press of the tab key on a file name remembers
/// its context, so the next press on the same line, directory and prefix
/// lists the matches, directories marked with `/`.
pub proof fn lemma_files_second_press_lists(
    mem: MemoryView,
    line: Seq<char>,
    dir: Seq<char>,
    prefix: Seq<char>,
    base: Seq<char>,
    start: int,
    cursor: int,
    ms: Seq<(Seq<char>, bool)>,
)
    requires
        ms.len() >= 2,
    ensures
        files_step(files_step(mem, line, dir, prefix, base, start, cursor, ms).0, line, dir, prefix, base, start, cursor, ms).1
            == (ReplyView {
            start: cursor,
            candidates: Seq::empty(),
            effect: EffectView::Show(listing(ms.map_values(|e: (Seq<char>, bool)| shown_name(e)), line)),
        }),
{
}

/// The first press of the tab key on a file name with several matches
/// completes their common prefix when it is longer than the prefix typed,
/// and rings the bell otherwise.
pub proof fn lemma_files_first_press(
    line: Seq<char>,
    dir: Seq<char>,
    prefix: Seq<char>,
    base: Seq<char>,
    start: int,
    cursor: int,
    ms: Seq<(Seq<char>, bool)>,
)
    requires
        ms.len() >= 2,
    ensures
        ({
            let lcp = lcp_spec(names_of(ms));
            files_step(None, line, dir, prefix, base, start, cursor, ms).1 == if lcp.len() > prefix.len() {
                quiet(start, seq![(lcp, base + lcp)])
            } else {
                ReplyView { start: cursor, candidates: Seq::empty(), effect: EffectView::Bell }
            }
        }),
{
}

/// With several matches, a press of the tab key on a command word
/// remembers the line and the matches, so the next press with the same
/// ones lists them.
pub proof fn lemma_command_second_press_lists(
    mem: MemoryView,
    line: Seq<char>,
    word: Seq<char>,
    cursor: int,
    ms: Seq<Seq<char>>,
)
    requires
        ms.len() >= 2,
    ensures
        command_step(command_step(mem, line, word, cursor, ms).0, line, word, cursor, ms).1 == (ReplyView {
            start: cursor,
            candidates: Seq::empty(),
            effect: EffectView::Show(listing(ms, line)),
        }),
{
    assert(names_of(as_entries(ms)) =~= ms);
}

/// The first press of the tab key on a command word with several matches
/// completes their common prefix when it is longer than the word, and rings
/// the bell otherwise.
pub proof fn lemma_command_first_press(line: Seq<char>, word: Seq<char>, cursor: int, ms: Seq<Seq<char>>)
    requires
        ms.len() >= 2,
    ensures
        ({
            let lcp = lcp_spec(ms);
            command_step(None, line, word, cursor, ms).1 == if lcp.len() > word.len() {
                quiet(0, seq![(lcp, lcp)])
            } else {
                ReplyView { start: cursor, candidates: Seq::empty(), effect: EffectView::Bell }
            }
        }),
{
}

/// A single file match replaces the word from its start with the
/// directory part, the name, and a `/` after a directory or a space after a
/// file; a single command match replaces the line's start with the command
/// and a space.
pub proof fn lemma_single_match(
    mem: MemoryView,
    line: Seq<char>,
    dir: Seq<char>,
    prefix: Seq<char>,
    base: Seq<char>,
    start: int,
    cursor: int,
    name: Seq<char>,
    is_dir: bool,
    cmd: Seq<char>,
)
    ensures
        files_step(mem, line, dir, prefix, base, start, cursor, seq![(name, is_dir)]).1 == (ReplyView {
            start,
            candidates: seq![(name, base + name + seq![if is_dir { '/' } else { ' ' }])],
            effect: EffectView::Quiet,
        }),
        command_step(mem, line, prefix, cursor, seq![cmd]).1 == (ReplyView {
            start: 0,
            candidates: seq![(cmd, cmd + seq![' '])],
            effect: EffectView::Quiet,
        }),
{
    assert(cmd.push(' ') =~= cmd + seq![' ']);
    if is_dir {
        assert(seq!['/'] =~= seq![if is_dir { '/' } else { ' ' }]);
    } else {
        assert(seq![' '] =~= seq![if is_dir { '/' } else { ' ' }]);
    }
}

/// A press with one match or none completes at once (or does nothing) and
/// forgets the previous press.
pub proof fn lemma_few_matches_forget(
    mem: MemoryView,
    line: Seq<char>,
    dir: Seq<char>,
    prefix: Seq<char>,
    base: Seq<char>,
    start: int,
    cursor: int,
    ms: Seq<(Seq<char>, bool)>,
    cs: Seq<Seq<char>>,
)
    requires
        ms.len() <= 1,
        cs.len() <= 1,
    ensures
        files_step(mem, line, dir, prefix, base, start, cursor, ms).0 is None,
        command_step(mem, line, prefix, cursor, cs).0 is None,
{
}

} // verus!
