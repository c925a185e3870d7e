//! How far each log file has been processed: the byte offset up to which
//! its lines were handled, so that a restart neither resends nor skips a
//! line.

use vstd::prelude::*;

verus! {

/// The processed byte offset of each log file, keyed by the file's path.
#[derive(Debug)]
pub struct ReadState {
    entries: Vec<(String, u64)>,
}

impl ReadState {
    /// The path of the `i`-th entry.
    pub closed spec fn key_at(self, i: int) -> Seq<char> {
        self.entries@[i].0@
    }

    /// The path `key` has an entry.
    pub closed spec fn has_key(self, key: Seq<char>) -> bool {
        exists|i: int| 0 <= i < self.entries@.len() && #[trigger] self.key_at(i) == key
    }

    /// No path has two entries.
    #[verifier::type_invariant]
    closed spec fn wf(self) -> bool {
        forall|i: int, j: int|
            0 <= i < self.entries@.len() && 0 <= j < self.entries@.len() && i != j ==> #[trigger] self.key_at(i)
                != #[trigger] self.key_at(j)
    }

    /// The offset of the entry for `key` (meaningful when there is one).
    pub closed spec fn value_of(self, key: Seq<char>) -> u64 {
        self.entries@[choose|i: int| 0 <= i < self.entries@.len() && #[trigger] self.key_at(i) == key].1
    }
}

impl View for ReadState {
    type V = Map<Seq<char>, u64>;

    closed spec fn view(&self) -> Map<Seq<char>, u64> {
        Map::new(|k: Seq<char>| self.has_key(k), |k: Seq<char>| self.value_of(k))
    }
}

impl ReadState {
    proof fn lemma_entry_in_view(self, i: int)
        requires
            self.wf(),
            0 <= i < self.entries@.len(),
        ensures
            self@.contains_key(self.key_at(i)),
            self@[self.key_at(i)] == self.entries@[i].1,
    {
        let k = self.key_at(i);
        assert(self.has_key(k));
        let j = choose|j: int| 0 <= j < self.entries@.len() && #[trigger] self.key_at(j) == k;
        assert(self.key_at(j) == k);
    }

    /// The state with no file read yet.
    pub fn new() -> (s: Self)
        ensures
            s@ == Map::<Seq<char>, u64>::empty(),
    {
        let s = ReadState { entries: Vec::new() };
        assert(s@ =~= Map::<Seq<char>, u64>::empty());
        s
    }

    /// Where the entry for `key` stands, if there is one.
    fn find(&self, key: &String) -> (r: Option<usize>)
        requires
            self.wf(),
        ensures
            match r {
                Some(i) => i < self.entries@.len() && self.key_at(i as int) == key@,
                None => !self.has_key(key@),
            },
    {
        let n = self.entries.len();
        let mut i: usize = 0;
        while i < n
            invariant
                n == self.entries@.len(),
                i <= n,
                forall|j: int| 0 <= j < i ==> #[trigger] self.key_at(j) != key@,
            decreases n - i,
        {
            if self.entries[i].0 == *key {
                return Some(i);
            }
            i = i + 1;
        }
        None
    }

    /// The processed offset of `file_path`; 0 for a file never read.
    pub fn offset_for(&self, file_path: &str) -> (offset: u64)
        ensures
            offset == offset_in(self@, file_path@),
    {
        proof {
            use_type_invariant(self);
        }
        let key = file_path.to_owned();
        match self.find(&key) {
            Some(i) => {
                proof {
                    self.lemma_entry_in_view(i as int);
                }
                self.entries[i].1
            },
            None => 0,
        }
    }

    /// Records `offset` as the processed offset of `file_path`.
    pub fn set_offset(&mut self, file_path: &str, offset: u64)
        ensures
            final(self)@ == old(self)@.insert(file_path@, offset),
    {
        proof {
            use_type_invariant(&*self);
        }
        let key = file_path.to_owned();
        let ghost before = *self;
        let found = self.find(&key);
        let mut entries: Vec<(String, u64)> = Vec::new();
        std::mem::swap(&mut entries, &mut self.entries);
        assert(entries@ == before.entries@);
        match found {
            Some(i) => {
                entries.set(i, (key, offset));
                proof {
                    let after = ReadState { entries: entries };
                    assert forall|a: int, b: int|
                        0 <= a < after.entries@.len() && 0 <= b < after.entries@.len() && a != b
                        implies #[trigger] after.key_at(a) != #[trigger] after.key_at(b) by {
                        assert(before.key_at(a) != before.key_at(b));
                    }
                    assert forall|k: Seq<char>| #[trigger]
                        after@.contains_key(k) == before@.insert(file_path@, offset).contains_key(
                            k,
                        ) by {
                        if after.has_key(k) {
                            let j = choose|j: int|
                                0 <= j < after.entries@.len() && #[trigger] after.key_at(j) == k;
                            if j != i {
                                assert(before.key_at(j) == k);
                            }
                        }
                        if before.has_key(k) {
                            let j = choose|j: int|
                                0 <= j < before.entries@.len() && #[trigger] before.key_at(j) == k;
                            if j != i {
                                assert(after.key_at(j) == k);
                            } else {
                                assert(after.key_at(i as int) == k);
                            }
                        }
                        if k == file_path@ {
                            assert(after.key_at(i as int) == k);
                        }
                    }
                    assert forall|k: Seq<char>| #[trigger] after@.contains_key(k) implies after@[k]
                        == before@.insert(file_path@, offset)[k] by {
                        let j = choose|j: int|
                            0 <= j < after.entries@.len() && #[trigger] after.key_at(j) == k;
                        after.lemma_entry_in_view(j);
                        if j != i {
                            assert(before.key_at(j) == k);
                            before.lemma_entry_in_view(j);
                        }
                    }
                    assert(after@ =~= before@.insert(file_path@, offset));
                }
            },
            None => {
                entries.push((key, offset));
                proof {
                    let after = ReadState { entries: entries };
                    let n = before.entries@.len() as int;
                    assert forall|a: int, b: int|
                        0 <= a < after.entries@.len() && 0 <= b < after.entries@.len() && a != b
                        implies #[trigger] after.key_at(a) != #[trigger] after.key_at(b) by {
                        if a < n && b < n {
                            assert(before.key_at(a) != before.key_at(b));
                        } else if a < n {
                            assert(before.key_at(a) == after.key_at(a));
                        } else {
                            assert(before.key_at(b) == after.key_at(b));
                        }
                    }
                    assert forall|k: Seq<char>| #[trigger]
                        after@.contains_key(k) == before@.insert(file_path@, offset).contains_key(
                            k,
                        ) by {
                        if after.has_key(k) {
                            let j = choose|j: int|
                                0 <= j < after.entries@.len() && #[trigger] after.key_at(j) == k;
                            if j < n {
                                assert(before.key_at(j) == k);
                            }
                        }
                        if before.has_key(k) {
                            let j = choose|j: int|
                                0 <= j < before.entries@.len() && #[trigger] before.key_at(j) == k;
                            assert(after.key_at(j) == k);
                        }
                        if k == file_path@ {
                            assert(after.key_at(n) == k);
                        }
                    }
                    assert forall|k: Seq<char>| #[trigger] after@.contains_key(k) implies after@[k]
                        == before@.insert(file_path@, offset)[k] by {
                        let j = choose|j: int|
                            0 <= j < after.entries@.len() && #[trigger] after.key_at(j) == k;
                        after.lemma_entry_in_view(j);
                        if j < n {
                            assert(before.key_at(j) == k);
                            before.lemma_entry_in_view(j);
                        }
                    }
                    assert(after@ =~= before@.insert(file_path@, offset));
                }
            },
        }
        self.entries = entries;
    }

    /// Drops the entry of `file_path`, so that the file is read again from
    /// its start.
    pub fn forget(&mut self, file_path: &str)
        ensures
            final(self)@ == old(self)@.remove(file_path@),
    {
        proof {
            use_type_invariant(&*self);
        }
        let key = file_path.to_owned();
        let ghost before = *self;
        let found = self.find(&key);
        let mut entries: Vec<(String, u64)> = Vec::new();
        std::mem::swap(&mut entries, &mut self.entries);
        assert(entries@ == before.entries@);
        match found {
            Some(i) => {
                entries.remove(i);
                proof {
                    let after = ReadState { entries: entries };
                    let sh = |a: int| if a < i { a } else { a + 1 };
                    assert forall|a: int| 0 <= a < after.entries@.len() implies #[trigger] after.key_at(
                        a,
                    ) == before.key_at(sh(a)) by {}
                    assert forall|a: int, b: int|
                        0 <= a < after.entries@.len() && 0 <= b < after.entries@.len() && a != b
                        implies #[trigger] after.key_at(a) != #[trigger] after.key_at(b) by {
                        assert(after.key_at(a) == before.key_at(sh(a)));
                        assert(after.key_at(b) == before.key_at(sh(b)));
                    }
                    assert forall|k: Seq<char>| #[trigger]
                        after@.contains_key(k) == before@.remove(file_path@).contains_key(k) by {
                        if after.has_key(k) {
                            let j = choose|j: int|
                                0 <= j < after.entries@.len() && #[trigger] after.key_at(j) == k;
                            assert(after.key_at(j) == before.key_at(sh(j)));
                            assert(before.key_at(sh(j)) == k);
                            assert(sh(j) != i);
                        }
                        if before.has_key(k) && k != file_path@ {
                            let j = choose|j: int|
                                0 <= j < before.entries@.len() && #[trigger] before.key_at(j) == k;
                            assert(j != i);
                            let a = if j < i { j } else { j - 1 };
                            assert(after.key_at(a) == before.key_at(sh(a)));
                            assert(after.key_at(a) == k);
                        }
                    }
                    assert forall|k: Seq<char>| #[trigger] after@.contains_key(k) implies after@[k]
                        == before@.remove(file_path@)[k] by {
                        let j = choose|j: int|
                            0 <= j < after.entries@.len() && #[trigger] after.key_at(j) == k;
                        after.lemma_entry_in_view(j);
                        assert(after.key_at(j) == before.key_at(sh(j)));
                        assert(before.key_at(sh(j)) == k);
                        before.lemma_entry_in_view(sh(j));
                    }
                    assert(after@ =~= before@.remove(file_path@));
                }
            },
            None => {
                proof {
                    assert(!before@.contains_key(file_path@));
                    assert(before@ =~= before@.remove(file_path@));
                }
            },
        }
        self.entries = entries;
    }
}

/// The offset that the state `m` holds for `key`: 0 when it holds none.
pub open spec fn offset_in(m: Map<Seq<char>, u64>, key: Seq<char>) -> u64 {
    if m.contains_key(key) {
        m[key]
    } else {
        0
    }
}

/// The map that recording the pairs of `pairs` one after another gives,
/// starting from nothing: a later pair for a path overrides an earlier one.
pub open spec fn map_of_pairs(pairs: Seq<(String, u64)>) -> Map<Seq<char>, u64>
    decreases pairs.len(),
{
    if pairs.len() == 0 {
        Map::empty()
    } else {
        map_of_pairs(pairs.drop_last()).insert(pairs.last().0@, pairs.last().1)
    }
}

impl ReadState {
    /// The state holding the given (path, offset) pairs, as a map built
    /// from them would hold them.
    pub fn from_entries(pairs: Vec<(String, u64)>) -> (s: Self)
        ensures
            s@ == map_of_pairs(pairs@),
    {
        let mut s = ReadState::new();
        let mut i: usize = 0;
        assert(pairs@.take(0) =~= Seq::<(String, u64)>::empty());
        while i < pairs.len()
            invariant
                i <= pairs.len(),
                s@ == map_of_pairs(pairs@.take(i as int)),
            decreases pairs.len() - i,
        {
            s.set_offset(pairs[i].0.as_str(), pairs[i].1);
            assert(pairs@.take(i + 1).drop_last() =~= pairs@.take(i as int));
            i = i + 1;
        }
        assert(pairs@.take(pairs.len() as int) =~= pairs@);
        s
    }

    /// Every (path, offset) pair the state holds, each path once.
    pub fn entries(&self) -> (pairs: Vec<(String, u64)>)
        ensures
            forall|a: int, b: int|
                0 <= a < pairs@.len() && 0 <= b < pairs@.len() && a != b ==> #[trigger] pairs@[a].0@
                    != #[trigger] pairs@[b].0@,
            forall|a: int|
                0 <= a < pairs@.len() ==> #[trigger] self@.contains_key(pairs@[a].0@)
                    && self@[pairs@[a].0@] == pairs@[a].1,
            forall|k: Seq<char>|
                #[trigger] self@.contains_key(k) ==> exists|a: int|
                    0 <= a < pairs@.len() && #[trigger] pairs@[a].0@ == k,
    {
        proof {
            use_type_invariant(self);
        }
        let n = self.entries.len();
        let mut pairs: Vec<(String, u64)> = Vec::new();
        let mut i: usize = 0;
        while i < n
            invariant
                n == self.entries@.len(),
                i <= n,
                pairs@.len() == i,
                forall|a: int| 0 <= a < i ==> (#[trigger] pairs@[a]).0@ == self.key_at(a)
                    && pairs@[a].1 == self.entries@[a].1,
            decreases n - i,
        {
            let key = self.entries[i].0.clone();
            pairs.push((key, self.entries[i].1));
            i = i + 1;
        }
        proof {
            assert forall|a: int, b: int|
                0 <= a < pairs@.len() && 0 <= b < pairs@.len() && a != b implies #[trigger] pairs@[a].0@
                != #[trigger] pairs@[b].0@ by {
                assert(self.key_at(a) != self.key_at(b));
            }
            assert forall|a: int| 0 <= a < pairs@.len() implies #[trigger] self@.contains_key(
                pairs@[a].0@,
            ) && self@[pairs@[a].0@] == pairs@[a].1 by {
                self.lemma_entry_in_view(a);
            }
            assert forall|k: Seq<char>| #[trigger] self@.contains_key(k) implies exists|a: int|
                0 <= a < pairs@.len() && #[trigger] pairs@[a].0@ == k by {
                let j = choose|j: int| 0 <= j < self.entries@.len() && #[trigger] self.key_at(j) == k;
                assert(pairs@[j].0@ == k);
            }
        }
        pairs
    }
}

impl Clone for ReadState {
    /// A copy holding the same offsets.
    fn clone(&self) -> (c: Self)
        ensures
            c@ == self@,
    {
        proof {
            use_type_invariant(self);
        }
        let n = self.entries.len();
        let mut copy: Vec<(String, u64)> = Vec::new();
        let mut i: usize = 0;
        while i < n
            invariant
                n == self.entries@.len(),
                i <= n,
                copy@.len() == i,
                forall|a: int|
                    0 <= a < i ==> (#[trigger] copy@[a]).0@ == self.key_at(a) && copy@[a].1
                        == self.entries@[a].1,
            decreases n - i,
        {
            let key = self.entries[i].0.clone();
            copy.push((key, self.entries[i].1));
            i = i + 1;
        }
        let ghost c = ReadState { entries: copy };
        proof {
            assert forall|a: int| 0 <= a < n implies #[trigger] c.key_at(a) == self.key_at(a) by {}
            assert forall|a: int, b: int|
                0 <= a < n && 0 <= b < n && a != b implies #[trigger] c.key_at(a)
                != #[trigger] c.key_at(b) by {
                assert(c.key_at(a) == self.key_at(a));
                assert(c.key_at(b) == self.key_at(b));
            }
            assert forall|k: Seq<char>| #[trigger] c.has_key(k) == self.has_key(k) by {
                if c.has_key(k) {
                    let j = choose|j: int| 0 <= j < n && #[trigger] c.key_at(j) == k;
                    assert(self.key_at(j) == k);
                }
                if self.has_key(k) {
                    let j = choose|j: int| 0 <= j < n && #[trigger] self.key_at(j) == k;
                    assert(c.key_at(j) == k);
                }
            }
            assert forall|k: Seq<char>| #[trigger] c@.contains_key(k) implies c@[k] == self@[k] by {
                let j = choose|j: int| 0 <= j < n && #[trigger] c.key_at(j) == k;
                c.lemma_entry_in_view(j);
                assert(self.key_at(j) == k);
                self.lemma_entry_in_view(j);
            }
            assert(c@ =~= self@);
        }
        ReadState { entries: copy }
    }
}

impl Default for ReadState {
    fn default() -> (s: Self)
        ensures
            s@ == Map::<Seq<char>, u64>::empty(),
    {
        ReadState::new()
    }
}

/// A file never recorded reads as offset 0.
pub proof fn lemma_unknown_file_reads_zero(key: Seq<char>)
    ensures
        offset_in(Map::<Seq<char>, u64>::empty(), key) == 0,
{
}

/// Reading back a file's offset gives what was last recorded for it, and
/// recording one file's offset leaves every other file's offset as it was.
pub proof fn lemma_read_after_set(m: Map<Seq<char>, u64>, key: Seq<char>, offset: u64, other: Seq<char>)
    ensures
        offset_in(m.insert(key, offset), key) == offset,
        other != key ==> offset_in(m.insert(key, offset), other) == offset_in(m, other),
{
}

/// Forgetting a file resets its offset to 0 and leaves every other file's
/// offset as it was.
pub proof fn lemma_read_after_forget(m: Map<Seq<char>, u64>, key: Seq<char>, other: Seq<char>)
    ensures
        offset_in(m.remove(key), key) == 0,
        other != key ==> offset_in(m.remove(key), other) == offset_in(m, other),
{
}

/// Saving and loading round trip: pairs that list the state `m` exactly,
/// each path once, as [`ReadState::entries`] gives them, rebuild the same
/// state in [`ReadState::from_entries`]; a restart neither resends nor
/// skips a line.
pub proof fn lemma_entries_rebuild_state(pairs: Seq<(String, u64)>, m: Map<Seq<char>, u64>)
    requires
        forall|a: int, b: int|
            0 <= a < pairs.len() && 0 <= b < pairs.len() && a != b ==> #[trigger] pairs[a].0@
                != #[trigger] pairs[b].0@,
        forall|a: int|
            0 <= a < pairs.len() ==> #[trigger] m.contains_key(pairs[a].0@) && m[pairs[a].0@]
                == pairs[a].1,
        forall|k: Seq<char>|
            #[trigger] m.contains_key(k) ==> exists|a: int|
                0 <= a < pairs.len() && #[trigger] pairs[a].0@ == k,
    ensures
        map_of_pairs(pairs) == m,
    decreases pairs.len(),
{
    if pairs.len() == 0 {
        assert forall|k: Seq<char>| !m.contains_key(k) by {
            if m.contains_key(k) {
                let a = choose|a: int| 0 <= a < pairs.len() && #[trigger] pairs[a].0@ == k;
            }
        }
        assert(m =~= Map::<Seq<char>, u64>::empty());
    } else {
        let n = pairs.len() - 1;
        let last = pairs[n];
        let rest = pairs.drop_last();
        let m2 = m.remove(last.0@);
        assert forall|a: int, b: int|
            0 <= a < rest.len() && 0 <= b < rest.len() && a != b implies #[trigger] rest[a].0@
            != #[trigger] rest[b].0@ by {
            assert(rest[a] == pairs[a] && rest[b] == pairs[b]);
        }
        assert forall|a: int| 0 <= a < rest.len() implies #[trigger] m2.contains_key(rest[a].0@)
            && m2[rest[a].0@] == rest[a].1 by {
            assert(rest[a] == pairs[a]);
            assert(pairs[a].0@ != pairs[n].0@);
        }
        assert forall|k: Seq<char>| #[trigger] m2.contains_key(k) implies exists|a: int|
            0 <= a < rest.len() && #[trigger] rest[a].0@ == k by {
            let a = choose|a: int| 0 <= a < pairs.len() && #[trigger] pairs[a].0@ == k;
            assert(a != n);
            assert(rest[a] == pairs[a]);
        }
        lemma_entries_rebuild_state(rest, m2);
        assert(m.contains_key(pairs[n].0@));
        assert(m2.insert(last.0@, last.1) =~= m);
    }
}

} // verus!
