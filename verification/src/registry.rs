//! The completer scripts registered with `complete -C`.
use vstd::prelude::*;

use crate::text::{chars_eq, chars_of};

verus! {

/// Which completer script each command has, registered with
/// `complete -C <script> <command>`.
pub struct CompletionRegistry {
    entries: Vec<(String, String)>,
}

/// The map that the entries hold, later entries over earlier ones.
pub open spec fn map_of(entries: Seq<(String, String)>) -> Map<Seq<char>, Seq<char>>
    decreases entries.len(),
{
    if entries.len() == 0 {
        Map::empty()
    } else {
        map_of(entries.drop_last()).insert(entries.last().0@, entries.last().1@)
    }
}

/// No command occurs twice.
pub open spec fn keys_distinct(entries: Seq<(String, String)>) -> bool {
    forall|i: int, j: int|
        0 <= i < j < entries.len() ==> (#[trigger] entries[i]).0@ != (#[trigger] entries[j]).0@
}

proof fn lemma_map_of_lookup(entries: Seq<(String, String)>, k: Seq<char>)
    requires
        keys_distinct(entries),
    ensures
        map_of(entries).contains_key(k) <==> exists|i: int| 0 <= i < entries.len() && (#[trigger] entries[i]).0@ == k,
        forall|i: int| 0 <= i < entries.len() && (#[trigger] entries[i]).0@ == k ==> map_of(entries)[k] == entries[i].1@,
    decreases entries.len(),
{
    if entries.len() > 0 {
        let init = entries.drop_last();
        assert(keys_distinct(init)) by {
            assert forall|i: int, j: int| 0 <= i < j < init.len() implies (#[trigger] init[i]).0@ != (#[trigger] init[j]).0@ by {
                assert(init[i] == entries[i]);
                assert(init[j] == entries[j]);
            }
        }
        lemma_map_of_lookup(init, k);
        if map_of(entries).contains_key(k) && entries.last().0@ != k {
            let i = choose|i: int| 0 <= i < init.len() && (#[trigger] init[i]).0@ == k;
            assert(entries[i] == init[i]);
        }
        assert forall|i: int| 0 <= i < entries.len() && (#[trigger] entries[i]).0@ == k implies map_of(entries)[k] == entries[i].1@ by {
            if i < entries.len() - 1 {
                assert(init[i] == entries[i]);
            }
        }
        if exists|i: int| 0 <= i < entries.len() && (#[trigger] entries[i]).0@ == k {
            let i = choose|i: int| 0 <= i < entries.len() && (#[trigger] entries[i]).0@ == k;
            if i < entries.len() - 1 {
                assert(init[i] == entries[i]);
            }
        }
    }
}

proof fn lemma_map_of_update(entries: Seq<(String, String)>, i: int, e: (String, String))
    requires
        keys_distinct(entries),
        0 <= i < entries.len(),
        entries[i].0@ == e.0@,
    ensures
        map_of(entries.update(i, e)) == map_of(entries).insert(e.0@, e.1@),
        keys_distinct(entries.update(i, e)),
    decreases entries.len(),
{
    let u = entries.update(i, e);
    assert(keys_distinct(u)) by {
        assert forall|a: int, b: int| 0 <= a < b < u.len() implies (#[trigger] u[a]).0@ != (#[trigger] u[b]).0@ by {
            assert(entries[a].0@ != entries[b].0@);
        }
    }
    lemma_map_of_lookup(entries, e.0@);
    lemma_map_of_lookup(u, e.0@);
    assert forall|k: Seq<char>| k != e.0@ implies (map_of(u).contains_key(k) <==> map_of(entries).contains_key(k)) && (map_of(u).contains_key(k) ==> map_of(u)[k] == map_of(entries)[k]) by {
        lemma_map_of_lookup(entries, k);
        lemma_map_of_lookup(u, k);
        if map_of(u).contains_key(k) {
            let j = choose|j: int| 0 <= j < u.len() && (#[trigger] u[j]).0@ == k;
            assert(u[j] == entries[j]);
        }
        if map_of(entries).contains_key(k) {
            let j = choose|j: int| 0 <= j < entries.len() && (#[trigger] entries[j]).0@ == k;
            assert(u[j] == entries[j]);
        }
    }
    assert(u[i] == e);
    assert(u[i].0@ == e.0@);
    assert(map_of(u).contains_key(e.0@));
    assert(map_of(u)[e.0@] == e.1@);
    let m2 = map_of(entries).insert(e.0@, e.1@);
    assert forall|k: Seq<char>| #[trigger] map_of(u).dom().contains(k) <==> m2.dom().contains(k) by {
        if k != e.0@ {
            lemma_map_of_lookup(entries, k);
            lemma_map_of_lookup(u, k);
            if map_of(u).contains_key(k) {
                let j = choose|j: int| 0 <= j < u.len() && (#[trigger] u[j]).0@ == k;
                assert(u[j] == entries[j]);
            }
            if map_of(entries).contains_key(k) {
                let j = choose|j: int| 0 <= j < entries.len() && (#[trigger] entries[j]).0@ == k;
                assert(u[j] == entries[j]);
            }
        }
    }
    assert(map_of(u).dom() =~= m2.dom());
    assert(map_of(u) =~= m2);
}

/// After registering `script` for `cmd`, looking `cmd` up gives `script`,
/// and every other command keeps what it had (or keeps having nothing).
pub proof fn lemma_register_then_lookup(
    reg: Map<Seq<char>, Seq<char>>,
    cmd: Seq<char>,
    script: Seq<char>,
    other: Seq<char>,
)
    ensures
        reg.insert(cmd, script).contains_key(cmd),
        reg.insert(cmd, script)[cmd] == script,
        other != cmd ==> (reg.insert(cmd, script).contains_key(other) == reg.contains_key(other)),
        other != cmd && reg.contains_key(other) ==> reg.insert(cmd, script)[other] == reg[other],
{
}

impl View for CompletionRegistry {
    type V = Map<Seq<char>, Seq<char>>;

    closed spec fn view(&self) -> Map<Seq<char>, Seq<char>> {
        map_of(self.entries@)
    }
}

impl CompletionRegistry {
    #[verifier::type_invariant]
    closed spec fn inv(self) -> bool {
        keys_distinct(self.entries@)
    }

    /// A registry with nothing registered.
    pub fn new() -> (res: CompletionRegistry)
        ensures
            res@ == Map::<Seq<char>, Seq<char>>::empty(),
    {
        CompletionRegistry { entries: Vec::new() }
    }

    /// Index of the entry for `command`, if there is one.
    fn find(&self, command: &str) -> (res: Option<usize>)
        ensures
            match res {
                Some(i) => i < self.entries@.len() && self.entries@[i as int].0@ == command@,
                None => forall|i: int| 0 <= i < self.entries@.len() ==> (#[trigger] self.entries@[i]).0@ != command@,
            },
    {
        let c = chars_of(command);
        let mut i: usize = 0;
        while i < self.entries.len()
            invariant
                i <= self.entries@.len(),
                c@ == command@,
                forall|j: int| 0 <= j < i ==> (#[trigger] self.entries@[j]).0@ != command@,
            decreases self.entries@.len() - i,
        {
            let k = chars_of(self.entries[i].0.as_str());
            if chars_eq(k.as_slice(), c.as_slice()) {
                return Some(i);
            }
            i += 1;
        }
        None
    }

    /// Registers `script` as the completer of `command`, in place of any
    /// script it had.
    pub fn register(&mut self, command: String, script: String)
        ensures
            final(self)@ == old(self)@.insert(command@, script@),
    {
        proof {
            use_type_invariant(&*self);
        }
        match self.find(command.as_str()) {
            Some(i) => {
                proof {
                    lemma_map_of_update(self.entries@, i as int, (command, script));
                }
                let mut entries: Vec<(String, String)> = Vec::new();
                std::mem::swap(&mut entries, &mut self.entries);
                entries.set(i, (command, script));
                self.entries = entries;
            },
            None => {
                let ghost old_entries = self.entries@;
                let mut entries: Vec<(String, String)> = Vec::new();
                std::mem::swap(&mut entries, &mut self.entries);
                entries.push((command, script));
                proof {
                    assert(entries@.drop_last() =~= old_entries);
                    assert(keys_distinct(entries@)) by {
                        assert forall|a: int, b: int| 0 <= a < b < entries@.len() implies (#[trigger] entries@[a]).0@ != (#[trigger] entries@[b]).0@ by {
                            if b < entries@.len() - 1 {
                                assert(entries@[a] == old_entries[a]);
                                assert(entries@[b] == old_entries[b]);
                            } else {
                                assert(entries@[a] == old_entries[a]);
                            }
                        }
                    }
                }
                self.entries = entries;
            },
        }
    }

    /// The completer script registered for `command`, if any.
    pub fn lookup(&self, command: &str) -> (res: Option<String>)
        ensures
            match res {
                Some(s) => self@.contains_key(command@) && self@[command@] == s@,
                None => !self@.contains_key(command@),
            },
    {
        proof {
            use_type_invariant(self);
            lemma_map_of_lookup(self.entries@, command@);
        }
        match self.find(command) {
            Some(i) => Some(self.entries[i].1.clone()),
            None => None,
        }
    }
}

} // verus!
