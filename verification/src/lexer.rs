//! Splitting a command line into words, with shell quoting.
use vstd::prelude::*;

use crate::text::{chars_of, push_char, views};

verus! {

/// Where the lexer stands between two characters.
#[derive(Clone, Copy, Debug, PartialEq, Eq, Structural)]
pub enum Mode {
    /// Outside any quotes.
    Plain,
    /// Just after a backslash outside quotes.
    PlainEscape,
    /// Inside single quotes.
    Single,
    /// Inside double quotes.
    Double,
    /// Just after a backslash inside double quotes.
    DoubleEscape,
}

/// The lexer's state as a mathematical value: the mode, the word being
/// built, and the words already finished.
pub struct LexState {
    pub mode: Mode,
    pub current: Seq<char>,
    pub words: Seq<Seq<char>>,
}

/// A blank separates words outside quotes.
pub open spec fn is_blank(c: char) -> bool {
    c == ' ' || c == '\t'
}

/// A character that a backslash escapes inside double quotes.
pub open spec fn is_double_escapable(c: char) -> bool {
    c == '"' || c == '\\' || c == '$' || c == '`'
}

pub open spec fn initial() -> LexState {
    LexState { mode: Mode::Plain, current: Seq::empty(), words: Seq::empty() }
}

pub open spec fn with_mode(st: LexState, m: Mode) -> LexState {
    LexState { mode: m, ..st }
}

pub open spec fn push_current(st: LexState, c: char) -> LexState {
    LexState { current: st.current.push(c), ..st }
}

/// Ends the word being built, if it holds anything.
pub open spec fn flush(st: LexState) -> LexState {
    if st.current.len() > 0 {
        LexState { mode: st.mode, current: Seq::empty(), words: st.words.push(st.current) }
    } else {
        st
    }
}

/// One character read inside double quotes.
pub open spec fn double_step(st: LexState, c: char) -> LexState {
    if c == '"' {
        with_mode(st, Mode::Plain)
    } else if c == '\\' {
        with_mode(st, Mode::DoubleEscape)
    } else {
        push_current(st, c)
    }
}

/// One character read in any mode.
pub open spec fn step(st: LexState, c: char) -> LexState {
    match st.mode {
        Mode::Plain => {
            if c == '\'' {
                with_mode(st, Mode::Single)
            } else if c == '"' {
                with_mode(st, Mode::Double)
            } else if c == '\\' {
                with_mode(st, Mode::PlainEscape)
            } else if is_blank(c) {
                flush(st)
            } else {
                push_current(st, c)
            }
        },
        Mode::PlainEscape => with_mode(push_current(st, c), Mode::Plain),
        Mode::Single => {
            if c == '\'' {
                with_mode(st, Mode::Plain)
            } else {
                push_current(st, c)
            }
        },
        Mode::Double => double_step(st, c),
        Mode::DoubleEscape => {
            if is_double_escapable(c) {
                with_mode(push_current(st, c), Mode::Double)
            } else if c == '\n' {
                with_mode(st, Mode::Double)
            } else {
                double_step(with_mode(push_current(st, '\\'), Mode::Double), c)
            }
        },
    }
}

/// The state after reading all of `s`, starting from `st`.
pub open spec fn lex_from(st: LexState, s: Seq<char>) -> LexState
    decreases s.len(),
{
    if s.len() == 0 {
        st
    } else {
        step(lex_from(st, s.drop_last()), s.last())
    }
}

/// The state after reading all of `s` from the start of a line.
pub open spec fn lex(s: Seq<char>) -> LexState {
    lex_from(initial(), s)
}

/// The words once the input has ended: a backslash left open inside double
/// quotes stands for itself, one left open outside quotes is dropped.
pub open spec fn finish(st: LexState) -> Seq<Seq<char>> {
    let st2 = if st.mode == Mode::DoubleEscape {
        push_current(st, '\\')
    } else {
        st
    };
    flush(st2).words
}

/// The words of a command line.
pub open spec fn tokenize(s: Seq<char>) -> Seq<Seq<char>> {
    finish(lex(s))
}

/// Ends the word being built in `current`, if it holds anything.
fn flush_exec(current: &mut String, words: &mut Vec<String>)
    ensures
        ({
            let st = LexState { mode: Mode::Plain, current: old(current)@, words: views(old(words)@) };
            &&& final(current)@ == flush(st).current
            &&& views(final(words)@) == flush(st).words
        }),
{
    if !current.as_str().is_empty() {
        let w = current.clone();
        words.push(w);
        *current = String::new();
        assert(views(words@) =~= views(old(words)@).push(old(current)@));
    }
}

/// Splits a command line into words, as a POSIX shell does for a simple
/// command: blanks (space, tab) separate words outside quotes; single quotes
/// keep everything up to the next single quote; double quotes keep everything
/// up to the next double quote, where a backslash escapes `"`, `\`, `$` and
/// `` ` `` and drops a newline, and stands for itself before anything else;
/// outside quotes a backslash keeps the next character as it is. Quotes
/// themselves never end up in a word, and empty words are dropped.
pub fn parse_command_with_quotes(input: &str) -> (res: Vec<String>)
    ensures
        views(res@) == tokenize(input@),
{
    let chars = chars_of(input);
    let mut mode = Mode::Plain;
    let mut current = String::new();
    let mut words: Vec<String> = Vec::new();
    let mut i: usize = 0;
    assert(chars@.take(0) =~= Seq::<char>::empty());
    assert(views(words@) =~= Seq::<Seq<char>>::empty());
    while i < chars.len()
        invariant
            i <= chars@.len(),
            chars@ == input@,
            lex(chars@.take(i as int)) == (LexState { mode, current: current@, words: views(words@) }),
        decreases chars@.len() - i,
    {
        let ghost before = LexState { mode, current: current@, words: views(words@) };
        let c = chars[i];
        match mode {
            Mode::Plain => {
                if c == '\'' {
                    mode = Mode::Single;
                } else if c == '"' {
                    mode = Mode::Double;
                } else if c == '\\' {
                    mode = Mode::PlainEscape;
                } else if c == ' ' || c == '\t' {
                    flush_exec(&mut current, &mut words);
                } else {
                    push_char(&mut current, c);
                }
            },
            Mode::PlainEscape => {
                push_char(&mut current, c);
                mode = Mode::Plain;
            },
            Mode::Single => {
                if c == '\'' {
                    mode = Mode::Plain;
                } else {
                    push_char(&mut current, c);
                }
            },
            Mode::Double => {
                if c == '"' {
                    mode = Mode::Plain;
                } else if c == '\\' {
                    mode = Mode::DoubleEscape;
                } else {
                    push_char(&mut current, c);
                }
            },
            Mode::DoubleEscape => {
                if c == '"' || c == '\\' || c == '$' || c == '`' {
                    push_char(&mut current, c);
                    mode = Mode::Double;
                } else if c == '\n' {
                    mode = Mode::Double;
                } else {
                    push_char(&mut current, '\\');
                    push_char(&mut current, c);
                    mode = Mode::Double;
                }
            },
        }
        assert(LexState { mode, current: current@, words: views(words@) } == step(before, c));
        i += 1;
        assert(chars@.take(i as int).drop_last() =~= chars@.take(i - 1));
    }
    assert(chars@.take(chars@.len() as int) =~= chars@);
    if mode == Mode::DoubleEscape {
        push_char(&mut current, '\\');
    }
    flush_exec(&mut current, &mut words);
    words
}

/// Reading `a` and then `b` is reading `a + b`.
pub proof fn lemma_lex_from_concat(st: LexState, a: Seq<char>, b: Seq<char>)
    ensures
        lex_from(st, a + b) == lex_from(lex_from(st, a), b),
    decreases b.len(),
{
    if b.len() == 0 {
        assert(a + b =~= a);
    } else {
        lemma_lex_from_concat(st, a, b.drop_last());
        assert((a + b).drop_last() =~= a + b.drop_last());
        assert((a + b).last() == b.last());
    }
}

proof fn lemma_lex_one(st: LexState, c: char)
    ensures
        lex_from(st, seq![c]) == step(st, c),
{
    let e = Seq::<char>::empty();
    assert(seq![c].drop_last() =~= e);
    assert(seq![c].last() == c);
    assert(lex_from(st, e) == st);
}

/// Every word of a state is non-empty.
pub open spec fn words_nonempty(st: LexState) -> bool {
    forall|i: int| 0 <= i < st.words.len() ==> #[trigger] st.words[i].len() > 0
}

proof fn lemma_lex_from_words_nonempty(st: LexState, s: Seq<char>)
    requires
        words_nonempty(st),
    ensures
        words_nonempty(lex_from(st, s)),
    decreases s.len(),
{
    if s.len() > 0 {
        lemma_lex_from_words_nonempty(st, s.drop_last());
    }
}

/// No word of a command line is empty: quotes that hold nothing, and runs
/// of blanks, give no word.
pub proof fn lemma_tokenize_words_nonempty(s: Seq<char>)
    ensures
        forall|i: int| 0 <= i < tokenize(s).len() ==> #[trigger] tokenize(s)[i].len() > 0,
{
    lemma_lex_from_words_nonempty(initial(), s);
}

/// Outside quotes, a run of blanks separates words as one blank does: a
/// second blank after an unquoted blank changes nothing.
pub proof fn lemma_extra_blank_ignored(p: Seq<char>, b: char, q: Seq<char>)
    requires
        lex(p).mode == Mode::Plain,
        is_blank(b),
    ensures
        tokenize(p + seq![' '] + seq![b] + q) == tokenize(p + seq![' '] + q),
{
    let st1 = lex_from(lex(p), seq![' ']);
    lemma_lex_from_concat(initial(), p, seq![' ']);
    lemma_lex_from_concat(initial(), p + seq![' '], seq![b]);
    lemma_lex_from_concat(initial(), p + seq![' '] + seq![b], q);
    lemma_lex_from_concat(initial(), p + seq![' '], q);
    lemma_lex_one(lex(p), ' ');
    lemma_lex_one(st1, b);
}

/// Outside quotes, a tab separates words as a space does.
pub proof fn lemma_tab_as_space(p: Seq<char>, q: Seq<char>)
    requires
        lex(p).mode == Mode::Plain,
    ensures
        tokenize(p + seq!['\t'] + q) == tokenize(p + seq![' '] + q),
{
    lemma_lex_from_concat(initial(), p, seq!['\t']);
    lemma_lex_from_concat(initial(), p, seq![' ']);
    lemma_lex_from_concat(initial(), p + seq!['\t'], q);
    lemma_lex_from_concat(initial(), p + seq![' '], q);
    lemma_lex_one(lex(p), '\t');
    lemma_lex_one(lex(p), ' ');
}

proof fn lemma_lex_inside_double(st: LexState, w: Seq<char>)
    requires
        st.mode == Mode::Double,
        forall|i: int| 0 <= i < w.len() ==> #[trigger] w[i] != '"' && w[i] != '\\',
    ensures
        lex_from(st, w) == (LexState { current: st.current + w, ..st }),
    decreases w.len(),
{
    if w.len() == 0 {
        assert(st.current + w =~= st.current);
    } else {
        let w0 = w.drop_last();
        assert forall|i: int| 0 <= i < w0.len() implies #[trigger] w0[i] != '"' && w0[i] != '\\' by {
            assert(w0[i] == w[i]);
        }
        lemma_lex_inside_double(st, w0);
        assert(w[w.len() - 1] != '"' && w[w.len() - 1] != '\\');
        assert((st.current + w0).push(w.last()) =~= st.current + w);
    }
}

proof fn lemma_lex_inside_single(st: LexState, w: Seq<char>)
    requires
        st.mode == Mode::Single,
        forall|i: int| 0 <= i < w.len() ==> #[trigger] w[i] != '\'',
    ensures
        lex_from(st, w) == (LexState { current: st.current + w, ..st }),
    decreases w.len(),
{
    if w.len() == 0 {
        assert(st.current + w =~= st.current);
    } else {
        let w0 = w.drop_last();
        assert forall|i: int| 0 <= i < w0.len() implies #[trigger] w0[i] != '\'' by {
            assert(w0[i] == w[i]);
        }
        lemma_lex_inside_single(st, w0);
        assert(w[w.len() - 1] != '\'');
        assert((st.current + w0).push(w.last()) =~= st.current + w);
    }
}

/// Outside quotes, a double-quoted stretch with no `"` or `\` in it adds
/// its characters as they stand to the word being built (blanks and single
/// quotes included), and quoting ends at the closing `"`.
pub proof fn lemma_double_quoted_literal(p: Seq<char>, w: Seq<char>)
    requires
        lex(p).mode == Mode::Plain,
        forall|i: int| 0 <= i < w.len() ==> #[trigger] w[i] != '"' && w[i] != '\\',
    ensures
        lex(p + seq!['"'] + w + seq!['"']) == (LexState { current: lex(p).current + w, ..lex(p) }),
{
    let st0 = lex(p);
    lemma_lex_one(st0, '"');
    lemma_lex_from_concat(initial(), p, seq!['"']);
    let st1 = lex_from(st0, seq!['"']);
    lemma_lex_inside_double(st1, w);
    lemma_lex_from_concat(initial(), p + seq!['"'], w);
    let st2 = lex_from(st1, w);
    lemma_lex_one(st2, '"');
    lemma_lex_from_concat(initial(), p + seq!['"'] + w, seq!['"']);
}

/// Outside quotes, a single-quoted stretch with no `'` in it adds its
/// characters as they stand to the word being built (blanks, double quotes
/// and backslashes included), and quoting ends at the closing `'`.
pub proof fn lemma_single_quoted_literal(p: Seq<char>, w: Seq<char>)
    requires
        lex(p).mode == Mode::Plain,
        forall|i: int| 0 <= i < w.len() ==> #[trigger] w[i] != '\'',
    ensures
        lex(p + seq!['\''] + w + seq!['\'']) == (LexState { current: lex(p).current + w, ..lex(p) }),
{
    let st0 = lex(p);
    lemma_lex_one(st0, '\'');
    lemma_lex_from_concat(initial(), p, seq!['\'']);
    let st1 = lex_from(st0, seq!['\'']);
    lemma_lex_inside_single(st1, w);
    lemma_lex_from_concat(initial(), p + seq!['\''], w);
    let st2 = lex_from(st1, w);
    lemma_lex_one(st2, '\'');
    lemma_lex_from_concat(initial(), p + seq!['\''] + w, seq!['\'']);
}

/// A double-quoted text with no `"` or `\` in it is one word, exactly its
/// characters (a single quote inside neither ends the quoting nor is lost);
/// an empty one is no word.
pub proof fn lemma_tokenize_double_quoted(w: Seq<char>)
    requires
        forall|i: int| 0 <= i < w.len() ==> #[trigger] w[i] != '"' && w[i] != '\\',
    ensures
        tokenize(seq!['"'] + w + seq!['"']) == if w.len() > 0 { seq![w] } else { Seq::empty() },
{
    let e = Seq::<char>::empty();
    assert(lex(e) == initial());
    lemma_double_quoted_literal(e, w);
    assert(e + seq!['"'] =~= seq!['"']);
    assert(Seq::<char>::empty() + w =~= w);
    if w.len() > 0 {
        assert(Seq::<Seq<char>>::empty().push(w) =~= seq![w]);
    }
}

/// A single-quoted text with no `'` in it is one word, exactly its
/// characters; an empty one is no word.
pub proof fn lemma_tokenize_single_quoted(w: Seq<char>)
    requires
        forall|i: int| 0 <= i < w.len() ==> #[trigger] w[i] != '\'',
    ensures
        tokenize(seq!['\''] + w + seq!['\'']) == if w.len() > 0 { seq![w] } else { Seq::empty() },
{
    let e = Seq::<char>::empty();
    assert(lex(e) == initial());
    lemma_single_quoted_literal(e, w);
    assert(e + seq!['\''] =~= seq!['\'']);
    assert(Seq::<char>::empty() + w =~= w);
    if w.len() > 0 {
        assert(Seq::<Seq<char>>::empty().push(w) =~= seq![w]);
    }
}

/// Outside quotes, a backslash makes the next character, whatever it is,
/// part of the word as it stands.
pub proof fn lemma_plain_escape(p: Seq<char>, c: char)
    requires
        lex(p).mode == Mode::Plain,
    ensures
        lex(p + seq!['\\', c]) == (LexState { current: lex(p).current.push(c), ..lex(p) }),
{
    let st0 = lex(p);
    lemma_lex_from_concat(initial(), p, seq!['\\', c]);
    assert(seq!['\\', c].drop_last() =~= seq!['\\']);
    lemma_lex_one(st0, '\\');
}

/// Inside double quotes, a backslash before `"`, `\`, `$` or `` ` `` stands
/// for that character alone, a backslash before a newline drops both, and a
/// backslash before anything else stands for itself, with that character
/// after it; the quoting goes on in every case.
pub proof fn lemma_double_escape(p: Seq<char>, c: char)
    requires
        lex(p).mode == Mode::Double,
    ensures
        lex(p + seq!['\\', c]) == (LexState {
            current: if c == '"' || c == '\\' || c == '$' || c == '`' {
                lex(p).current.push(c)
            } else if c == '\n' {
                lex(p).current
            } else {
                lex(p).current.push('\\').push(c)
            },
            ..lex(p)
        }),
{
    let st0 = lex(p);
    lemma_lex_from_concat(initial(), p, seq!['\\', c]);
    assert(seq!['\\', c].drop_last() =~= seq!['\\']);
    lemma_lex_one(st0, '\\');
}

/// A line that ends inside double quotes just after a backslash keeps that
/// backslash: `"w\` is the one word `w\` (for `w` with no `"` or `\`).
pub proof fn lemma_open_double_quote_backslash(w: Seq<char>)
    requires
        forall|i: int| 0 <= i < w.len() ==> #[trigger] w[i] != '"' && w[i] != '\\',
    ensures
        tokenize(seq!['"'] + w + seq!['\\']) == seq![w.push('\\')],
{
    let e = Seq::<char>::empty();
    assert(lex(e) == initial());
    lemma_lex_one(initial(), '"');
    assert(lex(seq!['"']) == lex_from(initial(), seq!['"']));
    let st1 = lex(seq!['"']);
    lemma_lex_inside_double(st1, w);
    lemma_lex_from_concat(initial(), seq!['"'], w);
    let st2 = lex_from(st1, w);
    lemma_lex_one(st2, '\\');
    lemma_lex_from_concat(initial(), seq!['"'] + w, seq!['\\']);
    assert(Seq::<char>::empty() + w =~= w);
    assert(Seq::<Seq<char>>::empty().push(w.push('\\')) =~= seq![w.push('\\')]);
}

/// A line that ends just after a backslash outside quotes drops that
/// backslash: a plain word followed by `\` is that word alone.
pub proof fn lemma_trailing_backslash_dropped(w: Seq<char>)
    requires
        is_plain_word(w),
    ensures
        tokenize(w + seq!['\\']) == seq![w],
{
    lemma_lex_plain_word(initial(), w);
    assert(Seq::<char>::empty() + w =~= w);
    lemma_lex_one(lex(w), '\\');
    lemma_lex_from_concat(initial(), w, seq!['\\']);
    assert(Seq::<Seq<char>>::empty().push(w) =~= seq![w]);
}

/// A word that a shell reads as it stands: non-empty, with no blank, quote,
/// backslash or other white space in it.
pub open spec fn is_plain_word(w: Seq<char>) -> bool {
    &&& w.len() > 0
    &&& forall|i: int|
        0 <= i < w.len() ==> !is_special(#[trigger] w[i])
}

/// Characters that the lexer or the line trimming treat specially.
pub open spec fn is_special(c: char) -> bool {
    c == '\'' || c == '"' || c == '\\' || crate::text::is_white_space(c)
}

/// Words joined by single spaces.
pub open spec fn join_words(ws: Seq<Seq<char>>) -> Seq<char>
    decreases ws.len(),
{
    if ws.len() == 0 {
        Seq::empty()
    } else if ws.len() == 1 {
        ws[0]
    } else {
        join_words(ws.drop_last()) + seq![' '] + ws.last()
    }
}

proof fn lemma_lex_plain_word(st: LexState, w: Seq<char>)
    requires
        st.mode == Mode::Plain,
        forall|i: int| 0 <= i < w.len() ==> !is_special(#[trigger] w[i]),
    ensures
        lex_from(st, w) == (LexState { current: st.current + w, ..st }),
    decreases w.len(),
{
    crate::text::lemma_blank_is_white_space();
    if w.len() == 0 {
        assert(st.current + w =~= st.current);
    } else {
        let w0 = w.drop_last();
        assert forall|i: int| 0 <= i < w0.len() implies !is_special(#[trigger] w0[i]) by {
            assert(w0[i] == w[i]);
        }
        lemma_lex_plain_word(st, w0);
        assert(!is_special(w[w.len() - 1]));
        assert(st.current + w0 + seq![w.last()] =~= st.current + w);
        assert(st.current + w0 + seq![w.last()] =~= (st.current + w0).push(w.last()));
    }
}

proof fn lemma_lex_join_words(ws: Seq<Seq<char>>)
    requires
        ws.len() > 0,
        forall|i: int| 0 <= i < ws.len() ==> is_plain_word(#[trigger] ws[i]),
    ensures
        lex(join_words(ws)) == (LexState {
            mode: Mode::Plain,
            current: ws.last(),
            words: ws.drop_last(),
        }),
    decreases ws.len(),
{
    if ws.len() == 1 {
        lemma_lex_plain_word(initial(), ws[0]);
        assert(Seq::<char>::empty() + ws[0] =~= ws[0]);
        assert(ws.drop_last() =~= Seq::<Seq<char>>::empty());
    } else {
        let init = ws.drop_last();
        assert forall|i: int| 0 <= i < init.len() implies is_plain_word(#[trigger] init[i]) by {
            assert(init[i] == ws[i]);
        }
        lemma_lex_join_words(init);
        assert(is_plain_word(ws[ws.len() - 2]));
        let st1 = lex(join_words(init));
        lemma_lex_from_concat(initial(), join_words(init), seq![' ']);
        lemma_lex_one(st1, ' ');
        assert(init.last() == ws[ws.len() - 2]);
        assert(init.last().len() > 0);
        let st2 = lex_from(st1, seq![' ']);
        assert(st2 == (LexState { mode: Mode::Plain, current: Seq::empty(), words: ws.drop_last() }))
            by {
            assert(init.drop_last().push(init.last()) =~= ws.drop_last());
        }
        assert(is_plain_word(ws[ws.len() - 1]));
        lemma_lex_plain_word(st2, ws.last());
        lemma_lex_from_concat(initial(), join_words(init) + seq![' '], ws.last());
        assert(Seq::<char>::empty() + ws.last() =~= ws.last());
    }
}

proof fn lemma_join_words_ends(ws: Seq<Seq<char>>)
    requires
        ws.len() > 0,
        forall|i: int| 0 <= i < ws.len() ==> is_plain_word(#[trigger] ws[i]),
    ensures
        join_words(ws).len() > 0,
        join_words(ws)[0] == ws[0][0],
        join_words(ws).last() == ws.last().last(),
    decreases ws.len(),
{
    assert(is_plain_word(ws[0]));
    assert(is_plain_word(ws[ws.len() - 1]));
    if ws.len() > 1 {
        let init = ws.drop_last();
        assert forall|i: int| 0 <= i < init.len() implies is_plain_word(#[trigger] init[i]) by {
            assert(init[i] == ws[i]);
        }
        lemma_join_words_ends(init);
    }
}

/// Plain words joined by single spaces have no white space at either end,
/// so trimming leaves them as they are.
pub proof fn lemma_trim_join_words(ws: Seq<Seq<char>>)
    requires
        forall|i: int| 0 <= i < ws.len() ==> is_plain_word(#[trigger] ws[i]),
    ensures
        crate::text::trim(join_words(ws)) == join_words(ws),
{
    if ws.len() > 0 {
        lemma_join_words_ends(ws);
        assert(is_plain_word(ws[0]));
        assert(!is_special(ws[0][0]));
        assert(is_plain_word(ws[ws.len() - 1]));
        assert(!is_special(ws.last()[ws.last().len() - 1]));
    }
}

/// Plain words joined by single spaces read back as those same words.
pub proof fn lemma_tokenize_join_words(ws: Seq<Seq<char>>)
    requires
        forall|i: int| 0 <= i < ws.len() ==> is_plain_word(#[trigger] ws[i]),
    ensures
        tokenize(join_words(ws)) == ws,
{
    if ws.len() == 0 {
    } else {
        lemma_lex_join_words(ws);
        assert(is_plain_word(ws[ws.len() - 1]));
        assert(ws.drop_last().push(ws.last()) =~= ws);
    }
}

} // verus!
