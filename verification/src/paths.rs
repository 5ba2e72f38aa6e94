//! Search paths and directory arguments.
use vstd::prelude::*;
use vstd::string::StringExecFns;

use crate::text::{chars_of, free_of, join_sep, push_char, views};

verus! {

/// The pieces of `s` between occurrences of `d`, as `str::split` with a
/// character gives them: read left to right, `d` starts a new piece and any
/// other character extends the last one.
pub open spec fn split_spec(s: Seq<char>, d: char) -> Seq<Seq<char>>
    decreases s.len(),
{
    if s.len() == 0 {
        seq![Seq::empty()]
    } else {
        let p = split_spec(s.drop_last(), d);
        if s.last() == d {
            p.push(Seq::empty())
        } else {
            p.update(p.len() - 1, p.last().push(s.last()))
        }
    }
}

pub proof fn lemma_split_spec_nonempty(s: Seq<char>, d: char)
    ensures
        split_spec(s, d).len() >= 1,
    decreases s.len(),
{
    if s.len() > 0 {
        lemma_split_spec_nonempty(s.drop_last(), d);
    }
}

/// The pieces of `s` between occurrences of `delim` (`str::split`).
pub fn split_on(s: &str, delim: char) -> (res: Vec<String>)
    ensures
        views(res@) == split_spec(s@, delim),
{
    let cs = chars_of(s);
    let mut done: Vec<String> = Vec::new();
    let mut current = String::new();
    let mut i: usize = 0;
    assert(views(done@).push(current@) =~= seq![Seq::<char>::empty()]);
    assert(cs@.take(0) =~= Seq::<char>::empty());
    while i < cs.len()
        invariant
            i <= cs@.len(),
            cs@ == s@,
            views(done@).push(current@) == split_spec(cs@.take(i as int), delim),
        decreases cs@.len() - i,
    {
        let c = cs[i];
        let ghost parts = views(done@).push(current@);
        assert(cs@.take(i + 1).drop_last() =~= cs@.take(i as int));
        if c == delim {
            let piece = current.clone();
            done.push(piece);
            current = String::new();
            assert(views(done@).push(current@) =~= parts.push(Seq::<char>::empty()));
        } else {
            push_char(&mut current, c);
            assert(views(done@).push(current@) =~= parts.update(
                parts.len() - 1,
                parts.last().push(c),
            ));
        }
        i += 1;
    }
    assert(cs@.take(cs@.len() as int) =~= cs@);
    let ghost parts = views(done@).push(current@);
    done.push(current);
    assert(views(done@) =~= parts);
    done
}

/// Splitting at `d` and joining with `d` gives the string back, and no
/// piece holds `d`.
pub proof fn lemma_split_then_join(s: Seq<char>, d: char)
    ensures
        join_sep(split_spec(s, d), seq![d]) == s,
        free_of(split_spec(s, d), d),
    decreases s.len(),
{
    if s.len() > 0 {
        let p = split_spec(s.drop_last(), d);
        lemma_split_then_join(s.drop_last(), d);
        lemma_split_spec_nonempty(s.drop_last(), d);
        let q = split_spec(s, d);
        if s.last() == d {
            assert(q.drop_last() =~= p);
            assert(s =~= s.drop_last() + seq![d] + Seq::<char>::empty());
        } else {
            assert(q.drop_last() =~= p.drop_last());
            if p.len() == 1 {
                assert(join_sep(q, seq![d]) == q[0]);
                assert(s =~= p[0].push(s.last()));
            } else {
                assert(join_sep(q, seq![d]) == join_sep(p.drop_last(), seq![d]) + seq![d] + q.last());
                assert(join_sep(p, seq![d]) == join_sep(p.drop_last(), seq![d]) + seq![d] + p.last());
                assert(s =~= s.drop_last().push(s.last()));
                assert(s =~= join_sep(p.drop_last(), seq![d]) + seq![d] + p.last().push(s.last()));
            }
            assert forall|a: int, k: int|
                0 <= a < q.len() && 0 <= k < q[a].len() implies #[trigger] q[a][k] != d by {
                if a < p.len() - 1 {
                    assert(q[a] == p[a]);
                } else if k < p[a].len() {
                    assert(q[a][k] == p[a][k]);
                }
            }
        }
    }
}

/// Joining pieces free of `d` with `d`, then splitting at `d`, gives the
/// pieces back.
pub proof fn lemma_join_then_split(parts: Seq<Seq<char>>, d: char)
    requires
        parts.len() >= 1,
        free_of(parts, d),
    ensures
        split_spec(join_sep(parts, seq![d]), d) == parts,
    decreases parts.len(),
{
    if parts.len() == 1 {
        lemma_split_plain(Seq::empty(), seq![Seq::<char>::empty()], parts[0], d);
        assert(seq![Seq::<char>::empty()].update(0, Seq::<char>::empty() + parts[0]) =~= parts);
        assert(Seq::<char>::empty() + parts[0] =~= parts[0]);
    } else {
        let init = parts.drop_last();
        assert(free_of(init, d)) by {
            assert forall|a: int, k: int|
                0 <= a < init.len() && 0 <= k < init[a].len() implies #[trigger] init[a][k] != d by {
                assert(init[a] == parts[a]);
            }
        }
        lemma_join_then_split(init, d);
        let head = join_sep(init, seq![d]) + seq![d];
        assert(head.drop_last() =~= join_sep(init, seq![d]));
        assert(split_spec(head, d) =~= init.push(Seq::empty()));
        assert forall|k: int| 0 <= k < parts.last().len() implies #[trigger] parts.last()[k] != d by {
            assert(parts[parts.len() - 1][k] != d);
        }
        lemma_split_plain(head, init.push(Seq::empty()), parts.last(), d);
        assert(init.push(Seq::<char>::empty()).update(init.len() as int, Seq::<char>::empty() + parts.last()) =~= parts);
    }
}

/// Reading characters other than `d` extends the last piece.
proof fn lemma_split_plain(head: Seq<char>, p: Seq<Seq<char>>, w: Seq<char>, d: char)
    requires
        split_spec(head, d) == p,
        p.len() >= 1,
        forall|k: int| 0 <= k < w.len() ==> #[trigger] w[k] != d,
    ensures
        split_spec(head + w, d) == p.update(p.len() - 1, p.last() + w),
    decreases w.len(),
{
    if w.len() == 0 {
        assert(head + w =~= head);
        assert(p.update(p.len() - 1, p.last() + w) =~= p);
    } else {
        let w0 = w.drop_last();
        lemma_split_plain(head, p, w0, d);
        assert((head + w).drop_last() =~= head + w0);
        assert((head + w).last() == w.last());
        assert(w.last() != d);
        let q = p.update(p.len() - 1, p.last() + w0);
        assert(q.last() == p.last() + w0);
        assert((p.last() + w0).push(w.last()) =~= p.last() + w);
        assert(q.update(q.len() - 1, q.last().push(w.last())) =~= p.update(p.len() - 1, p.last() + w));
    }
}

/// `path` with a leading `~` replaced by the home directory: `~` alone
/// becomes `home`, and `~/rest` becomes `home` followed by `/rest`; any other
/// path, or any path when there is no home directory, stays as it is.
pub open spec fn expand_tilde_spec(path: Seq<char>, home: Option<Seq<char>>) -> Seq<char> {
    if path.len() > 0 && path[0] == '~' && home is Some {
        if path == seq!['~'] {
            home->0
        } else if path.len() >= 2 && path[1] == '/' {
            home->0 + path.skip(1)
        } else {
            path
        }
    } else {
        path
    }
}

/// An optional string as a mathematical value.
pub open spec fn opt_view(o: Option<String>) -> Option<Seq<char>> {
    match o {
        Some(s) => Some(s@),
        None => None,
    }
}

/// Expands a leading `~` in `path` to `home` (the value of `HOME`, if set).
pub fn expand_tilde(path: &str, home: Option<String>) -> (res: String)
    ensures
        res@ == expand_tilde_spec(path@, opt_view(home)),
{
    let cs = chars_of(path);
    let mut out = String::new();
    if cs.len() > 0 && cs[0] == '~' {
        match home {
            Some(h) => {
                if cs.len() == 1 {
                    assert(cs@ =~= seq!['~']);
                    return h;
                } else if cs[1] == '/' {
                    out.append(h.as_str());
                    let rest = crate::text::string_of(&cs.as_slice()[1..cs.len()]);
                    out.append(rest.as_str());
                    assert(cs@.subrange(1, cs@.len() as int) =~= cs@.skip(1));
                    assert(cs@ != seq!['~']);
                    return out;
                } else {
                    assert(cs@ != seq!['~']);
                }
            },
            None => {},
        }
    }
    out.append(path);
    out
}

/// Where entering `seg` from the directory `dir` (its components) leads:
/// an empty segment and `.` stay, `..` goes up (the root stays the root),
/// anything else goes down.
pub open spec fn enter(dir: Seq<Seq<char>>, seg: Seq<char>) -> Seq<Seq<char>> {
    if seg.len() == 0 || seg == seq!['.'] {
        dir
    } else if seg == seq!['.', '.'] {
        if dir.len() > 0 {
            dir.drop_last()
        } else {
            dir
        }
    } else {
        dir.push(seg)
    }
}

/// Entering each of `segs` in turn, from `dir`.
pub open spec fn walk(dir: Seq<Seq<char>>, segs: Seq<Seq<char>>) -> Seq<Seq<char>>
    decreases segs.len(),
{
    if segs.len() == 0 {
        dir
    } else {
        enter(walk(dir, segs.drop_last()), segs.last())
    }
}

/// The directory that the relative path `target_dir` names, from the
/// directory `cwd`; both are given by their components below the root.
pub fn resolve_relative_path(cwd: &[String], target_dir: &str) -> (res: Vec<String>)
    ensures
        views(res@) == walk(views(cwd@), split_spec(target_dir@, '/')),
{
    let segs = split_on(target_dir, '/');
    let mut path: Vec<String> = Vec::new();
    let mut i: usize = 0;
    while i < cwd.len()
        invariant
            i <= cwd@.len(),
            views(path@) =~= views(cwd@).take(i as int),
        decreases cwd@.len() - i,
    {
        let ghost before = views(path@);
        let c = cwd[i].clone();
        path.push(c);
        assert(views(path@) =~= before.push(cwd@[i as int]@));
        assert(views(cwd@).take(i + 1) =~= views(cwd@).take(i as int).push(cwd@[i as int]@));
        i += 1;
    }
    assert(views(cwd@).take(cwd@.len() as int) =~= views(cwd@));
    let dot = ['.'];
    let dotdot = ['.', '.'];
    assert(dot@ == seq!['.']);
    assert(dotdot@ == seq!['.', '.']);
    let ghost sv = views(segs@);
    let mut k: usize = 0;
    assert(sv.take(0) =~= Seq::<Seq<char>>::empty());
    while k < segs.len()
        invariant
            k <= segs@.len(),
            sv == views(segs@),
            dot@ == seq!['.'],
            dotdot@ == seq!['.', '.'],
            views(path@) == walk(views(cwd@), sv.take(k as int)),
        decreases segs@.len() - k,
    {
        let seg = chars_of(segs[k].as_str());
        let ghost before = views(path@);
        assert(sv.take(k + 1).drop_last() =~= sv.take(k as int));
        assert(sv.take(k + 1).last() == seg@);
        if seg.len() == 0 || crate::text::chars_eq(seg.as_slice(), &dot) {
        } else if crate::text::chars_eq(seg.as_slice(), &dotdot) {
            if path.len() > 0 {
                path.pop();
                assert(views(path@) =~= before.drop_last());
            }
        } else {
            let s2 = segs[k].clone();
            path.push(s2);
            assert(views(path@) =~= before.push(seg@));
        }
        k += 1;
    }
    assert(sv.take(segs@.len() as int) =~= sv);
    path
}

/// The absolute path of the directory with these components below the root.
pub open spec fn absolute_path(components: Seq<Seq<char>>) -> Seq<char> {
    seq!['/'] + join_sep(components, seq!['/'])
}

/// Where `cd target` goes: the target with `~` expanded, taken as it is when
/// absolute, else resolved from the directory `cwd` (its components).
pub open spec fn cd_destination(target: Seq<char>, home: Option<Seq<char>>, cwd: Seq<Seq<char>>) -> Seq<char> {
    let expanded = expand_tilde_spec(target, home);
    if expanded.len() > 0 && expanded[0] == '/' {
        expanded
    } else {
        absolute_path(walk(cwd, split_spec(expanded, '/')))
    }
}

/// The directory that `cd target` changes to, given the home directory and
/// the components of the current directory.
pub fn resolve_cd_target(target: &str, home: Option<String>, cwd: &[String]) -> (res: String)
    ensures
        res@ == cd_destination(target@, opt_view(home), views(cwd@)),
{
    let expanded = expand_tilde(target, home);
    let cs = chars_of(expanded.as_str());
    if cs.len() > 0 && cs[0] == '/' {
        return expanded;
    }
    let comps = resolve_relative_path(cwd, expanded.as_str());
    let joined = crate::text::join_strings(comps.as_slice(), "/");
    let mut out = String::new();
    push_char(&mut out, '/');
    out.append(joined.as_str());
    proof {
        reveal_strlit("/");
        assert("/"@ =~= seq!['/']);
        assert(out@ =~= seq!['/'] + joined@);
    }
    out
}

/// Whether a file with these permission bits may be run by someone: one of
/// the execute bits (owner, group, others) is set.
pub fn mode_is_executable(mode: u32) -> (res: bool)
    ensures
        res == ((mode & 0o111) != 0),
{
    (mode & 0o111) != 0
}

} // verus!
