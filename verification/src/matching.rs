//! Choosing completion candidates: common prefixes, and the names that match
//! what has been typed, in order.
use vstd::prelude::*;

use crate::order::{chars_le, lex_le, lex_lt};
use crate::text::{chars_eq, chars_of, is_prefix, starts_with_chars, string_of, views};

verus! {

/// `p` is a prefix of every string of `ss`.
pub open spec fn is_common_prefix(p: Seq<char>, ss: Seq<Seq<char>>) -> bool {
    forall|j: int| 0 <= j < ss.len() ==> is_prefix(p, #[trigger] ss[j])
}

/// `p` is the longest common prefix of `ss` (the empty string when `ss` is
/// empty): a common prefix that no string of `ss` lets grow by one more
/// character.
pub open spec fn is_longest_common_prefix(p: Seq<char>, ss: Seq<Seq<char>>) -> bool {
    if ss.len() == 0 {
        p.len() == 0
    } else {
        &&& is_common_prefix(p, ss)
        &&& (p.len() == ss[0].len() || exists|j: int|
            0 <= j < ss.len() && (#[trigger] ss[j].len() == p.len() || ss[j][p.len() as int]
                != ss[0][p.len() as int]))
    }
}

/// Length of the longest common prefix of `ss` that is at least `k` long,
/// found by extending the prefix of length `k` one character at a time.
pub open spec fn common_len_from(ss: Seq<Seq<char>>, k: nat) -> nat
    decreases ss[0].len() - k,
{
    if ss.len() > 0 && k < ss[0].len() && (forall|j: int|
        0 <= j < ss.len() ==> #[trigger] ss[j].len() > k && ss[j][k as int] == ss[0][k as int]) {
        common_len_from(ss, k + 1)
    } else {
        k
    }
}

/// The longest common prefix of `ss` (empty when `ss` is).
pub open spec fn lcp_spec(ss: Seq<Seq<char>>) -> Seq<char> {
    if ss.len() == 0 {
        Seq::empty()
    } else {
        ss[0].take(common_len_from(ss, 0) as int)
    }
}

proof fn lemma_common_len_from(ss: Seq<Seq<char>>, k: nat)
    requires
        ss.len() > 0,
        k <= ss[0].len(),
        is_common_prefix(ss[0].take(k as int), ss),
    ensures
        k <= common_len_from(ss, k) <= ss[0].len(),
        is_longest_common_prefix(ss[0].take(common_len_from(ss, k) as int), ss),
    decreases ss[0].len() - k,
{
    if k < ss[0].len() && (forall|j: int|
        0 <= j < ss.len() ==> #[trigger] ss[j].len() > k && ss[j][k as int] == ss[0][k as int]) {
        assert forall|j: int| 0 <= j < ss.len() implies is_prefix(ss[0].take(k + 1int), #[trigger] ss[j]) by {
            assert(is_prefix(ss[0].take(k as int), ss[j]));
            assert(ss[j].take(k + 1int) =~= ss[j].take(k as int).push(ss[j][k as int]));
            assert(ss[0].take(k + 1int) =~= ss[0].take(k as int).push(ss[0][k as int]));
        }
        lemma_common_len_from(ss, k + 1);
    } else {
        if k < ss[0].len() {
            let j = choose|j: int|
                0 <= j < ss.len() && !(#[trigger] ss[j].len() > k && ss[j][k as int] == ss[0][k as int]);
            assert(ss[j].len() == k || ss[j][k as int] != ss[0][k as int]) by {
                assert(is_prefix(ss[0].take(k as int), ss[j]));
            }
        }
    }
}

/// `lcp_spec` is the longest common prefix, and the only one.
pub proof fn lemma_lcp_spec(ss: Seq<Seq<char>>, p: Seq<char>)
    ensures
        is_longest_common_prefix(lcp_spec(ss), ss),
        is_longest_common_prefix(p, ss) ==> p == lcp_spec(ss),
{
    if ss.len() > 0 {
        assert(ss[0].take(0) =~= Seq::<char>::empty());
        assert forall|j: int| 0 <= j < ss.len() implies is_prefix(ss[0].take(0), #[trigger] ss[j]) by {
            assert(ss[j].take(0) =~= Seq::<char>::empty());
        }
        lemma_common_len_from(ss, 0);
        let q = lcp_spec(ss);
        if is_longest_common_prefix(p, ss) {
            assert(is_prefix(p, ss[0]));
            assert(is_prefix(q, ss[0]));
            assert(p =~= ss[0].take(p.len() as int));
            assert(q =~= ss[0].take(q.len() as int));
            if p.len() < q.len() {
                // q extends p by a character that every string has
                assert forall|j: int| 0 <= j < ss.len() implies #[trigger] ss[j].len() > p.len() && ss[j][p.len() as int] == ss[0][p.len() as int] by {
                    assert(is_prefix(q, ss[j]));
                    assert(ss[j][p.len() as int] == ss[j].take(q.len() as int)[p.len() as int]);
                    assert(q[p.len() as int] == ss[0][p.len() as int]);
                }
            } else if q.len() < p.len() {
                assert forall|j: int| 0 <= j < ss.len() implies #[trigger] ss[j].len() > q.len() && ss[j][q.len() as int] == ss[0][q.len() as int] by {
                    assert(is_prefix(p, ss[j]));
                    assert(ss[j][q.len() as int] == ss[j].take(p.len() as int)[q.len() as int]);
                    assert(p[q.len() as int] == ss[0][q.len() as int]);
                }
            }
        }
    }
}

/// Every common prefix of `ss` is a prefix of the longest one.
pub proof fn lemma_common_prefix_within_lcp(ss: Seq<Seq<char>>, p: Seq<char>)
    requires
        ss.len() > 0,
        is_common_prefix(p, ss),
    ensures
        is_prefix(p, lcp_spec(ss)),
{
    lemma_lcp_spec(ss, p);
    let q = lcp_spec(ss);
    assert(is_prefix(p, ss[0]));
    assert(is_prefix(q, ss[0]));
    if p.len() > q.len() {
        assert forall|j: int| 0 <= j < ss.len() implies #[trigger] ss[j].len() > q.len() && ss[j][q.len() as int] == ss[0][q.len() as int] by {
            assert(is_prefix(p, ss[j]));
            assert(ss[j][q.len() as int] == ss[j].take(p.len() as int)[q.len() as int]);
            assert(ss[0][q.len() as int] == ss[0].take(p.len() as int)[q.len() as int]);
        }
    }
    assert(q.take(p.len() as int) =~= p) by {
        assert forall|k: int| 0 <= k < p.len() implies q[k] == p[k] by {
            assert(p[k] == ss[0].take(p.len() as int)[k]);
            assert(q[k] == ss[0].take(q.len() as int)[k]);
        }
    }
}

/// The longest common prefix depends only on which strings there are, not
/// on their order or how often each occurs.
pub proof fn lemma_lcp_same_strings(ss: Seq<Seq<char>>, tt: Seq<Seq<char>>)
    requires
        forall|x: Seq<char>| ss.contains(x) <==> tt.contains(x),
    ensures
        lcp_spec(ss) == lcp_spec(tt),
{
    if ss.len() == 0 {
        if tt.len() > 0 {
            assert(tt.contains(tt[0]));
        }
    } else {
        assert(ss.contains(ss[0]));
        assert(tt.len() > 0);
        assert(tt.contains(tt[0]));
        let q = lcp_spec(ss);
        let n = q.len() as int;
        lemma_lcp_spec(ss, q);
        assert forall|j: int| 0 <= j < tt.len() implies is_prefix(q, #[trigger] tt[j]) by {
            assert(tt.contains(tt[j]));
            let i = choose|i: int| 0 <= i < ss.len() && ss[i] == tt[j];
            assert(is_prefix(q, ss[i]));
        }
        let i0 = choose|i: int| 0 <= i < ss.len() && ss[i] == tt[0];
        if !(n == tt[0].len() || exists|j: int|
            0 <= j < tt.len() && (#[trigger] tt[j].len() == n || tt[j][n] != tt[0][n])) {
            assert forall|i: int| 0 <= i < ss.len() implies #[trigger] ss[i].len() > n && ss[i][n] == tt[0][n] by {
                assert(ss.contains(ss[i]));
                let j = choose|j: int| 0 <= j < tt.len() && tt[j] == ss[i];
                assert(is_prefix(q, tt[j]));
            }
            assert(is_prefix(q, tt[0]));
            assert(ss[0][n] == tt[0][n]);
            if n != ss[0].len() {
                let j = choose|j: int| 0 <= j < ss.len() && (#[trigger] ss[j].len() == n || ss[j][n] != ss[0][n]);
                assert(ss[j].len() > n && ss[j][n] == tt[0][n]);
            }
        }
        lemma_lcp_spec(tt, q);
    }
}

/// Adding strings can only shorten the longest common prefix.
pub proof fn lemma_lcp_more_strings(ss: Seq<Seq<char>>, tt: Seq<Seq<char>>)
    requires
        ss.len() > 0,
    ensures
        is_prefix(lcp_spec(ss + tt), lcp_spec(ss)),
{
    let all = ss + tt;
    lemma_lcp_spec(all, Seq::empty());
    assert forall|j: int| 0 <= j < ss.len() implies is_prefix(lcp_spec(all), #[trigger] ss[j]) by {
        assert(all[j] == ss[j]);
    }
    lemma_common_prefix_within_lcp(ss, lcp_spec(all));
}

/// Adding the longest common prefix itself to the strings leaves it as it
/// is.
pub proof fn lemma_lcp_add_itself(ss: Seq<Seq<char>>)
    requires
        ss.len() > 0,
    ensures
        lcp_spec(ss.push(lcp_spec(ss))) == lcp_spec(ss),
{
    let q = lcp_spec(ss);
    let all = ss.push(q);
    lemma_lcp_spec(ss, q);
    assert(q.take(q.len() as int) =~= q);
    assert forall|j: int| 0 <= j < all.len() implies is_prefix(q, #[trigger] all[j]) by {
        if j < ss.len() {
            assert(all[j] == ss[j]);
        }
    }
    if q.len() != ss[0].len() {
        let j = choose|j: int| 0 <= j < ss.len() && (#[trigger] ss[j].len() == q.len() || ss[j][q.len() as int] != ss[0][q.len() as int]);
        assert(all[j] == ss[j]);
    }
    assert(all[0] == ss[0]);
    lemma_lcp_spec(all, q);
}

/// Length of the common prefix of `a` and `b`, no longer than `bound`.
fn common_len(a: &[char], b: &[char], bound: usize) -> (n: usize)
    requires
        bound <= a@.len(),
    ensures
        n <= bound,
        n <= b@.len(),
        forall|k: int| 0 <= k < n ==> a@[k] == b@[k],
        n == bound || n == b@.len() || a@[n as int] != b@[n as int],
{
    let mut n: usize = 0;
    while n < bound && n < b.len() && a[n] == b[n]
        invariant
            n <= bound <= a@.len(),
            n <= b@.len(),
            forall|k: int| 0 <= k < n ==> a@[k] == b@[k],
        decreases bound - n,
    {
        n += 1;
    }
    n
}

/// The longest common prefix of all `strings` (the empty string when there
/// are none).
pub fn longest_common_prefix(strings: &[String]) -> (res: String)
    ensures
        is_longest_common_prefix(res@, views(strings@)),
        res@ == lcp_spec(views(strings@)),
{
    proof {
        lemma_lcp_spec(views(strings@), Seq::empty());
    }
    let ghost ss = views(strings@);
    if strings.len() == 0 {
        return String::new();
    }
    let first = chars_of(strings[0].as_str());
    let mut n: usize = first.len();
    let mut j: usize = 1;
    assert(ss[0] == first@);
    assert(is_prefix(first@.take(n as int), ss[0])) by {
        assert(first@.take(n as int) =~= first@);
    }
    while j < strings.len()
        invariant
            1 <= j <= strings@.len(),
            ss == views(strings@),
            ss[0] == first@,
            n <= first@.len(),
            forall|k: int| 0 <= k < j ==> is_prefix(first@.take(n as int), #[trigger] ss[k]),
            n == first@.len() || exists|k: int|
                0 <= k < j && (#[trigger] ss[k].len() == n || ss[k][n as int] != first@[n as int]),
        decreases strings@.len() - j,
    {
        let other = chars_of(strings[j].as_str());
        assert(ss[j as int] == other@);
        let m = common_len(first.as_slice(), other.as_slice(), n);
        assert forall|k: int| 0 <= k <= j implies is_prefix(
            first@.take(m as int),
            #[trigger] ss[k],
        ) by {
            if k < j {
                assert(is_prefix(first@.take(n as int), ss[k]));
                assert(ss[k].take(m as int) =~= first@.take(n as int).take(m as int));
            } else {
                assert(ss[k].take(m as int) =~= first@.take(m as int));
            }
            assert(first@.take(n as int).take(m as int) =~= first@.take(m as int));
        }
        if m < n {
            assert(ss[j as int].len() == m || ss[j as int][m as int] != first@[m as int]);
        }
        n = m;
        j += 1;
    }
    let p = string_of(&first.as_slice()[0..n]);
    assert(first@.take(n as int) =~= first@.subrange(0, n as int));
    proof {
        lemma_lcp_spec(ss, p@);
    }
    p
}

/// The names of directory entries `(name, is_dir)`.
pub open spec fn entry_names(v: Seq<(String, bool)>) -> Seq<Seq<char>> {
    v.map_values(|e: (String, bool)| e.0@)
}

/// Directory entries `(name, is_dir)` as mathematical values.
pub open spec fn entry_views(v: Seq<(String, bool)>) -> Seq<(Seq<char>, bool)> {
    v.map_values(|e: (String, bool)| (e.0@, e.1))
}

/// The longest common prefix of the names of `files`.
pub fn longest_common_prefix_files(files: &[(String, bool)]) -> (res: String)
    ensures
        is_longest_common_prefix(res@, entry_names(files@)),
        res@ == lcp_spec(entry_names(files@)),
{
    let mut names: Vec<String> = Vec::new();
    let mut i: usize = 0;
    while i < files.len()
        invariant
            i <= files@.len(),
            views(names@) =~= entry_names(files@).take(i as int),
        decreases files@.len() - i,
    {
        let ghost before = views(names@);
        let nm = files[i].0.clone();
        names.push(nm);
        assert(views(names@) =~= before.push(files@[i as int].0@));
        assert(entry_names(files@).take(i + 1) =~= entry_names(files@).take(i as int).push(
            files@[i as int].0@,
        ));
        i += 1;
    }
    assert(entry_names(files@).take(files@.len() as int) =~= entry_names(files@));
    longest_common_prefix(names.as_slice())
}

/// The entry is named `n`.
pub open spec fn named(n: Seq<char>) -> spec_fn((Seq<char>, bool)) -> bool {
    |e: (Seq<char>, bool)| e.0 == n
}

/// The entry completes `prefix`: its name starts with it and is neither `.`
/// nor `..`.
pub open spec fn completes(prefix: Seq<char>) -> spec_fn((Seq<char>, bool)) -> bool {
    |e: (Seq<char>, bool)|
        is_prefix(prefix, e.0) && e.0 != seq!['.'] && e.0 != seq!['.', '.']
}

/// `r` is sorted by name.
pub open spec fn sorted_by_name(r: Seq<(Seq<char>, bool)>) -> bool {
    forall|i: int, j: int| 0 <= i < j < r.len() ==> lex_le(#[trigger] r[i].0, #[trigger] r[j].0)
}

/// `r` holds the entries of `inp`, sorted by name, and entries of one name
/// in the order they had in `inp` (a stable sort).
pub open spec fn is_stable_sort_by_name(r: Seq<(Seq<char>, bool)>, inp: Seq<(Seq<char>, bool)>) -> bool {
    &&& sorted_by_name(r)
    &&& forall|n: Seq<char>| #[trigger] r.filter(named(n)) == inp.filter(named(n))
}

proof fn lemma_insert_filter(r: Seq<(Seq<char>, bool)>, j: int, x: (Seq<char>, bool), n: Seq<char>)
    requires
        0 <= j <= r.len(),
        forall|k: int| j <= k < r.len() ==> (#[trigger] r[k]).0 != x.0,
    ensures
        r.insert(j, x).filter(named(n)) == if x.0 == n {
            r.filter(named(n)).push(x)
        } else {
            r.filter(named(n))
        },
{
    broadcast use vstd::seq_lib::group_seq_properties;
    let a = r.take(j);
    let b = r.skip(j);
    assert(r.insert(j, x) =~= a + seq![x] + b);
    assert(r =~= a + b);
    vstd::seq::Seq::filter_distributes_over_add(a + seq![x], b, named(n));
    vstd::seq::Seq::filter_distributes_over_add(a, seq![x], named(n));
    vstd::seq::Seq::filter_distributes_over_add(a, b, named(n));
    Seq::<(Seq<char>, bool)>::empty().lemma_filter_push(x, named(n));
    assert(Seq::<(Seq<char>, bool)>::empty().push(x) =~= seq![x]);
    reveal(Seq::filter);
    assert(Seq::<(Seq<char>, bool)>::empty().filter(named(n)) =~= Seq::<(Seq<char>, bool)>::empty());
    if x.0 == n {
        assert forall|k: int| 0 <= k < b.len() implies !(named(n))(#[trigger] b[k]) by {
            assert(b[k] == r[j + k]);
        }
        assert(b.all(|e: (Seq<char>, bool)| !(named(n))(e)));
        b.lemma_all_neg_filter_empty(named(n));
        assert(b.filter(named(n)) =~= Seq::<(Seq<char>, bool)>::empty());
        assert(a.filter(named(n)) + seq![x] + b.filter(named(n)) =~= a.filter(named(n)).push(x));
        assert(a.filter(named(n)) + b.filter(named(n)) =~= a.filter(named(n)));
    } else {
        assert(a.filter(named(n)) + Seq::<(Seq<char>, bool)>::empty() =~= a.filter(named(n)));
    }
}

proof fn lemma_filter_contains_iff(s: Seq<(Seq<char>, bool)>, p: spec_fn((Seq<char>, bool)) -> bool, x: (Seq<char>, bool))
    ensures
        s.filter(p).contains(x) <==> (s.contains(x) && p(x)),
{
    if s.filter(p).contains(x) {
        s.lemma_filter_contains_rev(p, x);
        let i = choose|i: int| 0 <= i < s.filter(p).len() && s.filter(p)[i] == x;
        s.lemma_filter_pred(p, i);
    }
    if s.contains(x) && p(x) {
        let i = choose|i: int| 0 <= i < s.len() && s[i] == x;
        s.lemma_filter_contains(p, i);
    }
}

/// The entries a completion of file names offers are exactly those of the
/// directory whose name starts with `prefix` and is neither `.` nor `..`;
/// a name starting with a dot is offered like any other.
pub proof fn lemma_selected_entries(
    entries: Seq<(Seq<char>, bool)>,
    prefix: Seq<char>,
    r: Seq<(Seq<char>, bool)>,
)
    requires
        is_stable_sort_by_name(r, entries.filter(completes(prefix))),
    ensures
        forall|e: (Seq<char>, bool)|
            #[trigger] r.contains(e) <==> (entries.contains(e) && prefix.len() <= e.0.len()
                && e.0.take(prefix.len() as int) == prefix && e.0 != seq!['.'] && e.0 != seq!['.', '.']),
{
    assert forall|e: (Seq<char>, bool)|
        #[trigger] r.contains(e) <==> (entries.contains(e) && prefix.len() <= e.0.len()
            && e.0.take(prefix.len() as int) == prefix && e.0 != seq!['.'] && e.0 != seq!['.', '.']) by {
        let inp = entries.filter(completes(prefix));
        assert(r.filter(named(e.0)) == inp.filter(named(e.0)));
        lemma_filter_contains_iff(r, named(e.0), e);
        lemma_filter_contains_iff(inp, named(e.0), e);
        lemma_filter_contains_iff(entries, completes(prefix), e);
    }
}

/// The entries of `entries` that complete `prefix` (every name but `.` and
/// `..` that starts with `prefix`), sorted by name; entries of one name keep
/// their order.
pub fn select_completions(entries: &[(String, bool)], prefix: &str) -> (res: Vec<(String, bool)>)
    ensures
        is_stable_sort_by_name(entry_views(res@), entry_views(entries@).filter(completes(prefix@))),
        forall|e: (Seq<char>, bool)|
            #[trigger] entry_views(res@).contains(e) <==> (entry_views(entries@).contains(e)
                && prefix@.len() <= e.0.len() && e.0.take(prefix@.len() as int) == prefix@
                && e.0 != seq!['.'] && e.0 != seq!['.', '.']),
{
    broadcast use vstd::seq_lib::group_seq_properties;
    let pre = chars_of(prefix);
    let dot = ['.'];
    let dotdot = ['.', '.'];
    assert(dot@ == seq!['.']);
    assert(dotdot@ == seq!['.', '.']);
    let mut out: Vec<(String, bool)> = Vec::new();
    let mut keys: Vec<Vec<char>> = Vec::new();
    let mut i: usize = 0;
    let ghost inp = entry_views(entries@);
    assert(inp.take(0).filter(completes(prefix@)) =~= Seq::<(Seq<char>, bool)>::empty()) by {
        reveal(Seq::filter);
    }
    assert(entry_views(out@) =~= Seq::<(Seq<char>, bool)>::empty());
    while i < entries.len()
        invariant
            i <= entries@.len(),
            pre@ == prefix@,
            dot@ == seq!['.'],
            dotdot@ == seq!['.', '.'],
            inp == entry_views(entries@),
            keys@.len() == out@.len(),
            forall|k: int| 0 <= k < keys@.len() ==> (#[trigger] keys@[k])@ == out@[k].0@,
            is_stable_sort_by_name(entry_views(out@), inp.take(i as int).filter(completes(prefix@))),
        decreases entries@.len() - i,
    {
        let ghost r = entry_views(out@);
        let ghost before = inp.take(i as int);
        let name = chars_of(entries[i].0.as_str());
        let x = (entries[i].0.clone(), entries[i].1);
        let ghost xv = (x.0@, x.1);
        assert(inp[i as int] == xv);
        assert(inp.take(i + 1) =~= before.push(xv));
        proof {
            before.lemma_filter_push(xv, completes(prefix@));
        }
        let keep = !chars_eq(name.as_slice(), &dot) && !chars_eq(name.as_slice(), &dotdot)
            && starts_with_chars(name.as_slice(), pre.as_slice());
        assert(keep == (completes(prefix@))(xv));
        if keep {
            let mut j: usize = out.len();
            while j > 0 && !chars_le(keys[j - 1].as_slice(), name.as_slice())
                invariant
                    j <= out@.len(),
                    keys@.len() == out@.len(),
                    forall|k: int| 0 <= k < keys@.len() ==> (#[trigger] keys@[k])@ == out@[k].0@,
                    r == entry_views(out@),
                    name@ == xv.0,
                    forall|k: int| j <= k < r.len() ==> !lex_le(#[trigger] r[k].0, xv.0),
                decreases j,
            {
                j -= 1;
            }
            proof {
                assert forall|k: int| j <= k < r.len() implies (#[trigger] r[k]).0 != xv.0 by {
                    crate::order::lemma_lex_le_reflexive(xv.0);
                }
                assert forall|n: Seq<char>| #[trigger] r.insert(j as int, xv).filter(named(n))
                    == inp.take(i + 1).filter(completes(prefix@)).filter(named(n)) by {
                    lemma_insert_filter(r, j as int, xv, n);
                    before.filter(completes(prefix@)).lemma_filter_push(xv, named(n));
                }
                let r2 = r.insert(j as int, xv);
                assert forall|a: int, b: int| 0 <= a < b < r2.len() implies lex_le(
                    #[trigger] r2[a].0,
                    #[trigger] r2[b].0,
                ) by {
                    if b < j {
                    } else if a < j && b == j {
                        assert(lex_le(r[j - 1].0, xv.0));
                        if a < j - 1 {
                            crate::order::lemma_lex_le_transitive(r[a].0, r[j - 1].0, xv.0);
                        }
                    } else if a < j {
                        assert(r2[b] == r[b - 1]);
                    } else if a == j {
                        assert(r2[b] == r[b - 1]);
                        crate::order::lemma_lex_le_total(r[b - 1].0, xv.0);
                    } else {
                        assert(r2[a] == r[a - 1]);
                        assert(r2[b] == r[b - 1]);
                    }
                }
            }
            out.insert(j, x);
            keys.insert(j, name);
            assert(entry_views(out@) =~= r.insert(j as int, xv));
            assert forall|k: int| 0 <= k < keys@.len() implies (#[trigger] keys@[k])@ == out@[k].0@ by {
                if k < j {
                } else if k > j {
                }
            }
        } else {
            assert(entry_views(out@) == r);
        }
        i += 1;
    }
    assert(inp.take(entries@.len() as int) =~= inp);
    proof {
        lemma_selected_entries(inp, prefix@, entry_views(out@));
    }
    out
}

/// The names of the shell's builtin commands.
pub open spec fn builtin_names() -> Seq<Seq<char>> {
    seq![
        seq!['e', 'c', 'h', 'o'],
        seq!['e', 'x', 'i', 't'],
        seq!['t', 'y', 'p', 'e'],
        seq!['p', 'w', 'd'],
        seq!['c', 'd'],
        seq!['c', 'o', 'm', 'p', 'l', 'e', 't', 'e'],
    ]
}

/// The builtins are exactly `echo`, `exit`, `type`, `pwd`, `cd` and
/// `complete`.
pub proof fn lemma_builtin_names(n: Seq<char>)
    ensures
        builtin_names().contains(n) <==> (n == "echo"@ || n == "exit"@ || n == "type"@ || n == "pwd"@
            || n == "cd"@ || n == "complete"@),
{
    reveal_strlit("echo");
    reveal_strlit("exit");
    reveal_strlit("type");
    reveal_strlit("pwd");
    reveal_strlit("cd");
    reveal_strlit("complete");
    let b = builtin_names();
    assert("echo"@ =~= b[0]);
    assert("exit"@ =~= b[1]);
    assert("type"@ =~= b[2]);
    assert("pwd"@ =~= b[3]);
    assert("cd"@ =~= b[4]);
    assert("complete"@ =~= b[5]);
    if b.contains(n) {
        let i = choose|i: int| 0 <= i < b.len() && b[i] == n;
        assert(i == 0 || i == 1 || i == 2 || i == 3 || i == 4 || i == 5);
    }
    if n == "echo"@ { assert(b[0] == n); }
    if n == "exit"@ { assert(b[1] == n); }
    if n == "type"@ { assert(b[2] == n); }
    if n == "pwd"@ { assert(b[3] == n); }
    if n == "cd"@ { assert(b[4] == n); }
    if n == "complete"@ { assert(b[5] == n); }
}

/// The builtin command names, in the order the shell lists them.
pub fn builtins() -> (res: Vec<String>)
    ensures
        views(res@) == builtin_names(),
{
    let mut v: Vec<String> = Vec::new();
    v.push(string_of(&['e', 'c', 'h', 'o']));
    v.push(string_of(&['e', 'x', 'i', 't']));
    v.push(string_of(&['t', 'y', 'p', 'e']));
    v.push(string_of(&['p', 'w', 'd']));
    v.push(string_of(&['c', 'd']));
    v.push(string_of(&['c', 'o', 'm', 'p', 'l', 'e', 't', 'e']));
    assert(views(v@) =~= builtin_names());
    v
}

/// Whether `cmd` names one of the shell's builtin commands.
pub fn is_builtin(cmd: &str) -> (res: bool)
    ensures
        res == builtin_names().contains(cmd@),
{
    let names = builtins();
    let c = chars_of(cmd);
    let mut i: usize = 0;
    while i < names.len()
        invariant
            i <= names@.len(),
            views(names@) == builtin_names(),
            c@ == cmd@,
            forall|k: int| 0 <= k < i ==> builtin_names()[k] != cmd@,
        decreases names@.len() - i,
    {
        let n = chars_of(names[i].as_str());
        if chars_eq(n.as_slice(), c.as_slice()) {
            assert(builtin_names()[i as int] == cmd@);
            return true;
        }
        i += 1;
    }
    false
}

/// `r` is in strictly increasing order.
pub open spec fn strictly_sorted(r: Seq<Seq<char>>) -> bool {
    forall|i: int, j: int| 0 <= i < j < r.len() ==> lex_lt(#[trigger] r[i], #[trigger] r[j])
}

/// Adds `x` to the strictly sorted `out` unless it is there already; `keys`
/// holds the characters of each string of `out`.
fn insert_sorted_unique(out: &mut Vec<String>, keys: &mut Vec<Vec<char>>, x: String, key: Vec<char>)
    requires
        strictly_sorted(views(old(out)@)),
        old(keys)@.len() == old(out)@.len(),
        forall|k: int| 0 <= k < old(keys)@.len() ==> (#[trigger] old(keys)@[k])@ == old(out)@[k]@,
        key@ == x@,
    ensures
        strictly_sorted(views(final(out)@)),
        final(keys)@.len() == final(out)@.len(),
        forall|k: int| 0 <= k < final(keys)@.len() ==> (#[trigger] final(keys)@[k])@ == final(out)@[k]@,
        forall|n: Seq<char>| #[trigger] views(final(out)@).contains(n) <==> (views(old(out)@).contains(n) || n == x@),
{
    let ghost r = views(out@);
    let mut j: usize = out.len();
    while j > 0 && !chars_le(keys[j - 1].as_slice(), key.as_slice())
        invariant
            j <= out@.len(),
            keys@.len() == out@.len(),
            forall|k: int| 0 <= k < keys@.len() ==> (#[trigger] keys@[k])@ == out@[k]@,
            r == views(out@),
            key@ == x@,
            forall|k: int| j <= k < r.len() ==> !lex_le(#[trigger] r[k], x@),
        decreases j,
    {
        j -= 1;
    }
    if j > 0 && crate::text::chars_eq(keys[j - 1].as_slice(), key.as_slice()) {
        assert(r[j - 1] == x@);
        assert forall|n: Seq<char>| #[trigger] r.contains(n) <==> (r.contains(n) || n == x@) by {
            if n == x@ {
                assert(r[j - 1] == n);
            }
        }
        return;
    }
    proof {
        crate::order::lemma_lex_le_reflexive(x@);
        let r2 = r.insert(j as int, x@);
        assert forall|a: int, b: int| 0 <= a < b < r2.len() implies lex_lt(
            #[trigger] r2[a],
            #[trigger] r2[b],
        ) by {
            if b < j {
            } else if a < j && b == j {
                assert(lex_le(r[j - 1], x@));
                assert(r[j - 1] != x@);
                if a < j - 1 {
                    crate::order::lemma_lex_le_transitive(r[a], r[j - 1], x@);
                    if r[a] == x@ {
                        crate::order::lemma_lex_le_antisymmetric(r[a], r[j - 1]);
                    }
                }
            } else if a < j {
                assert(r2[b] == r[b - 1]);
            } else if a == j {
                assert(r2[b] == r[b - 1]);
                crate::order::lemma_lex_le_total(r[b - 1], x@);
            } else {
                assert(r2[a] == r[a - 1]);
                assert(r2[b] == r[b - 1]);
            }
        }
        assert forall|n: Seq<char>| #[trigger] r2.contains(n) <==> (r.contains(n) || n == x@) by {
            if r2.contains(n) {
                let k = choose|k: int| 0 <= k < r2.len() && #[trigger] r2[k] == n;
                if k < j {
                    assert(r[k] == n);
                } else if k > j {
                    assert(r[k - 1] == n);
                }
            }
            if r.contains(n) {
                let k = choose|k: int| 0 <= k < r.len() && #[trigger] r[k] == n;
                if k < j {
                    assert(r2[k] == n);
                } else {
                    assert(r2[k + 1] == n);
                }
            }
            if n == x@ {
                assert(r2[j as int] == n);
            }
        }
    }
    out.insert(j, x);
    keys.insert(j, key);
    assert(views(out@) =~= r.insert(j as int, x@));
    assert forall|k: int| 0 <= k < keys@.len() implies (#[trigger] keys@[k])@ == out@[k]@ by {
        if k < j {
        } else if k > j {
        }
    }
}

proof fn lemma_take_succ_contains(s: Seq<Seq<char>>, i: int)
    requires
        0 <= i < s.len(),
    ensures
        forall|n: Seq<char>| #[trigger] s.take(i + 1).contains(n) <==> (s.take(i).contains(n) || n == s[i]),
{
    assert(s.take(i + 1) =~= s.take(i).push(s[i]));
    assert forall|n: Seq<char>| #[trigger] s.take(i + 1).contains(n) <==> (s.take(i).contains(n) || n == s[i]) by {
        if s.take(i + 1).contains(n) {
            let k = choose|k: int| 0 <= k < i + 1 && #[trigger] s.take(i + 1)[k] == n;
            if k < i {
                assert(s.take(i)[k] == n);
            }
        }
        if s.take(i).contains(n) {
            let k = choose|k: int| 0 <= k < i && #[trigger] s.take(i)[k] == n;
            assert(s.take(i + 1)[k] == n);
        }
        if n == s[i] {
            assert(s.take(i + 1)[i] == n);
        }
    }
}

/// `n` completes the command word `prefix`: it starts with it and names an
/// executable found on the search path or a builtin.
pub open spec fn is_command_match(n: Seq<char>, found: Seq<Seq<char>>, prefix: Seq<char>) -> bool {
    is_prefix(prefix, n) && (found.contains(n) || builtin_names().contains(n))
}

/// The commands that complete `prefix`: the executables `found` on the
/// search path and the builtins whose names start with it, each once, in
/// increasing order.
pub fn command_matches(found: &[String], prefix: &str) -> (res: Vec<String>)
    ensures
        strictly_sorted(views(res@)),
        forall|n: Seq<char>| #[trigger] views(res@).contains(n) <==> is_command_match(n, views(found@), prefix@),
{
    let pre = chars_of(prefix);
    let names = builtins();
    let mut out: Vec<String> = Vec::new();
    let mut keys: Vec<Vec<char>> = Vec::new();
    let ghost fv = views(found@);
    let mut i: usize = 0;
    assert(views(out@) =~= Seq::<Seq<char>>::empty());
    while i < found.len()
        invariant
            i <= found@.len(),
            fv == views(found@),
            pre@ == prefix@,
            strictly_sorted(views(out@)),
            keys@.len() == out@.len(),
            forall|k: int| 0 <= k < keys@.len() ==> (#[trigger] keys@[k])@ == out@[k]@,
            forall|n: Seq<char>| #[trigger] views(out@).contains(n) <==> (is_prefix(prefix@, n) && fv.take(i as int).contains(n)),
        decreases found@.len() - i,
    {
        let key = chars_of(found[i].as_str());
        assert(fv.take(i + 1) =~= fv.take(i as int).push(fv[i as int]));
        if starts_with_chars(key.as_slice(), pre.as_slice()) {
            let x = found[i].clone();
            insert_sorted_unique(&mut out, &mut keys, x, key);
        }
        proof {
            lemma_take_succ_contains(fv, i as int);
        }
        i += 1;
    }
    assert(fv.take(found@.len() as int) =~= fv);
    let mut b: usize = 0;
    while b < names.len()
        invariant
            b <= names@.len(),
            fv == views(found@),
            views(names@) == builtin_names(),
            pre@ == prefix@,
            strictly_sorted(views(out@)),
            keys@.len() == out@.len(),
            forall|k: int| 0 <= k < keys@.len() ==> (#[trigger] keys@[k])@ == out@[k]@,
            forall|n: Seq<char>| #[trigger] views(out@).contains(n) <==> (is_prefix(prefix@, n) && (fv.contains(n) || builtin_names().take(b as int).contains(n))),
        decreases names@.len() - b,
    {
        let key = chars_of(names[b].as_str());
        let ghost bn = builtin_names();
        proof {
            lemma_take_succ_contains(bn, b as int);
        }
        if starts_with_chars(key.as_slice(), pre.as_slice()) {
            let x = names[b].clone();
            insert_sorted_unique(&mut out, &mut keys, x, key);
        }
        b += 1;
    }
    assert(builtin_names().take(names@.len() as int) =~= builtin_names());
    out
}

} // verus!
