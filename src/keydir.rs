use vstd::hash_map::StringHashMap;
use vstd::prelude::*;

verus! {

/// Where one record lies in the log: its segment, its first byte within that
/// segment, and how many bytes it takes, terminator included.
#[derive(Clone, Copy, PartialEq, Eq, Debug)]
pub struct LogPointer {
    pub file_id: u64,
    pub offset: u64,
    pub length: u64,
}

/// The sum of the record lengths of a sequence of index entries.
pub open spec fn total_length(s: Seq<(String, LogPointer)>) -> int
    decreases s.len(),
{
    if s.len() == 0 {
        0
    } else {
        total_length(s.drop_last()) + s.last().1.length
    }
}

/// The sum of the lengths of a sequence of pointers.
pub open spec fn pointer_total(ps: Seq<LogPointer>) -> int
    decreases ps.len(),
{
    if ps.len() == 0 {
        0
    } else {
        pointer_total(ps.drop_last()) + ps.last().length
    }
}

proof fn lemma_total_length_pointers(s: Seq<(String, LogPointer)>)
    ensures
        total_length(s) == pointer_total(s.map_values(|e: (String, LogPointer)| e.1)),
    decreases s.len(),
{
    if s.len() > 0 {
        lemma_total_length_pointers(s.drop_last());
        assert(s.drop_last().map_values(|e: (String, LogPointer)| e.1) =~= s.map_values(
            |e: (String, LogPointer)| e.1,
        ).drop_last());
    }
}

/// Replacing one entry changes the sum by the difference of the two lengths.
pub proof fn lemma_total_length_update(s: Seq<(String, LogPointer)>, i: int, x: (String, LogPointer))
    requires
        0 <= i < s.len(),
    ensures
        total_length(s.update(i, x)) == total_length(s) - s[i].1.length + x.1.length,
    decreases s.len(),
{
    let t = s.update(i, x);
    if i == s.len() - 1 {
        assert(t.drop_last() =~= s.drop_last());
    } else {
        assert(t.drop_last() =~= s.drop_last().update(i, x));
        lemma_total_length_update(s.drop_last(), i, x);
    }
}

/// A prefix sums no more than the whole, and grows entry by entry.
pub proof fn lemma_total_length_prefix(s: Seq<(String, LogPointer)>, i: int)
    requires
        0 <= i < s.len(),
    ensures
        total_length(s.take(i + 1)) == total_length(s.take(i)) + s[i].1.length,
        total_length(s.take(i + 1)) <= total_length(s),
    decreases s.len(),
{
    assert(s.take(i + 1).drop_last() =~= s.take(i));
    if i + 1 < s.len() {
        lemma_total_length_prefix(s.drop_last(), i);
        assert(s.drop_last().take(i + 1) =~= s.take(i + 1));
        assert(s.drop_last().take(i) =~= s.take(i));
    } else {
        assert(s.take(i + 1) =~= s);
    }
}

/// Replacing an entry by one of the same length leaves every prefix sum as it was.
pub proof fn lemma_total_length_prefix_same(s: Seq<(String, LogPointer)>, i: int, x: (String, LogPointer), j: int)
    requires
        0 <= i < s.len(),
        0 <= j <= s.len(),
        x.1.length == s[i].1.length,
    ensures
        total_length(s.update(i, x).take(j)) == total_length(s.take(j)),
{
    if j <= i {
        assert(s.update(i, x).take(j) =~= s.take(j));
    } else {
        assert(s.update(i, x).take(j) =~= s.take(j).update(i, x));
        lemma_total_length_update(s.take(j), i, x);
    }
}

/// The in-memory index: a map from key to the pointer of the record that set
/// it last.  The entries are kept in a vector, so that they can be walked, and
/// a hash map gives the slot of each key.
pub struct KeyDir {
    entries: Vec<(String, LogPointer)>,
    slots: StringHashMap<usize>,
    contents: Ghost<Map<Seq<char>, LogPointer>>,
}

impl View for KeyDir {
    type V = Map<Seq<char>, LogPointer>;

    closed spec fn view(&self) -> Map<Seq<char>, LogPointer> {
        self.contents@
    }
}

impl KeyDir {
    pub closed spec fn inv(&self) -> bool {
        &&& self.slots@.dom() == self.contents@.dom()
        &&& forall|i: int|
            0 <= i < self.entries@.len() ==> {
                &&& #[trigger] self.slots@.contains_key(self.entries@[i].0@)
                &&& self.slots@[self.entries@[i].0@] == i
                &&& self.contents@[self.entries@[i].0@] == self.entries@[i].1
            }
        &&& forall|k: Seq<char>|
            #[trigger] self.slots@.contains_key(k) ==> {
                &&& self.slots@[k] < self.entries@.len()
                &&& self.entries@[self.slots@[k] as int].0@ == k
            }
    }

    /// The number of entries.
    pub closed spec fn spec_len(&self) -> nat {
        self.entries@.len()
    }

    /// The key of the entry in slot `i`.
    pub closed spec fn key_at(&self, i: int) -> Seq<char> {
        self.entries@[i].0@
    }

    /// The slot of key `k`.
    pub closed spec fn slot_of(&self, k: Seq<char>) -> int {
        self.slots@[k] as int
    }

    /// The number of bytes of the log that the index still points at.
    pub closed spec fn live_bytes(&self) -> int {
        total_length(self.entries@)
    }

    /// The pointers of the slots, in slot order.
    pub closed spec fn pointer_seq(&self) -> Seq<LogPointer> {
        self.entries@.map_values(|e: (String, LogPointer)| e.1)
    }

    /// The slots list every entry of the map once, and the live bytes are the
    /// sum of the lengths of their pointers.
    pub proof fn lemma_live_bytes(&self)
        requires
            self.wf(),
        ensures
            self.pointer_seq().len() == self.spec_len(),
            forall|j: int|
                0 <= j < self.spec_len() ==> #[trigger] self.pointer_seq()[j] == self@[self.key_at(j)],
            self.live_bytes() == pointer_total(self.pointer_seq()),
            self.live_bytes() >= 0,
            self@.dom().finite(),
            self@.dom().len() == self.spec_len(),
    {
        lemma_total_length_pointers(self.entries@);
        assert forall|j: int| 0 <= j < self.spec_len() implies #[trigger] self.pointer_seq()[j]
            == self@[self.key_at(j)] by {
            assert(self.slots@.contains_key(self.entries@[j].0@));
        }
        let keys = self.entries@.map_values(|e: (String, LogPointer)| e.0@);
        assert forall|i: int, j: int| 0 <= i < keys.len() && 0 <= j < keys.len() && i != j implies keys[i]
            != keys[j] by {
            assert(self.slots@.contains_key(self.entries@[i].0@));
            assert(self.slots@.contains_key(self.entries@[j].0@));
        }
        assert(keys.no_duplicates());
        assert forall|k: Seq<char>| keys.to_set().contains(k) <==> self@.dom().contains(k) by {
            if self@.dom().contains(k) {
                assert(self.slots@.contains_key(k));
                assert(keys[self.slots@[k] as int] == k);
            }
            if keys.contains(k) {
                let j = choose|j: int| 0 <= j < keys.len() && keys[j] == k;
                assert(self.slots@.contains_key(self.entries@[j].0@));
            }
        }
        assert(keys.to_set() =~= self@.dom());
        keys.unique_seq_to_set();
        vstd::seq_lib::seq_to_set_is_finite(keys);
    }

    /// The number of bytes that the records of the first `i` slots take.
    pub closed spec fn prefix_bytes(&self, i: int) -> int {
        total_length(self.entries@.take(i))
    }

    /// The records of the slots, laid end to end, take `live_bytes` in all.
    pub proof fn lemma_prefix_bytes(&self, i: int)
        requires
            self.wf(),
            0 <= i < self.spec_len(),
        ensures
            self.prefix_bytes(0) == 0,
            self.prefix_bytes(self.spec_len() as int) == self.live_bytes(),
            self.prefix_bytes(i + 1) == self.prefix_bytes(i) + self@[self.key_at(i)].length,
            self.prefix_bytes(i + 1) <= self.live_bytes(),
    {
        assert(self.entries@.take(0) =~= Seq::<(String, LogPointer)>::empty());
        assert(self.entries@.take(self.entries@.len() as int) =~= self.entries@);
        assert(self.slots@.contains_key(self.entries@[i].0@));
        lemma_total_length_prefix(self.entries@, i);
    }

    pub proof fn lemma_prefix_bytes_zero(&self)
        ensures
            self.prefix_bytes(0) == 0,
    {
        assert(self.entries@.take(0) =~= Seq::<(String, LogPointer)>::empty());
    }

    /// With no slot, no byte is live.
    pub proof fn lemma_prefix_bytes_empty(&self)
        requires
            self.wf(),
            self.spec_len() == 0,
        ensures
            self.prefix_bytes(0) == 0,
            self.live_bytes() == 0,
    {
        assert(self.entries@.take(0) =~= self.entries@);
    }

    /// Each slot holds a distinct key of the map, and each key has a slot.
    pub open spec fn wf(&self) -> bool {
        &&& self.inv()
        &&& forall|i: int|
            0 <= i < self.spec_len() ==> #[trigger] self@.contains_key(self.key_at(i))
                && self.slot_of(self.key_at(i)) == i
        &&& forall|k: Seq<char>|
            #[trigger] self@.contains_key(k) ==> 0 <= self.slot_of(k) < self.spec_len()
                && self.key_at(self.slot_of(k)) == k
        &&& self.live_bytes() >= 0
    }

    proof fn lemma_inv_intro(&self)
        requires
            self.slots@.dom() == self.contents@.dom(),
            forall|i: int|
                0 <= i < self.entries@.len() ==> {
                    &&& #[trigger] self.slots@.contains_key(self.entries@[i].0@)
                    &&& self.slots@[self.entries@[i].0@] == i
                    &&& self.contents@[self.entries@[i].0@] == self.entries@[i].1
                },
            forall|k: Seq<char>|
                #[trigger] self.slots@.contains_key(k) ==> {
                    &&& self.slots@[k] < self.entries@.len()
                    &&& self.entries@[self.slots@[k] as int].0@ == k
                },
        ensures
            self.inv(),
    {
    }

    proof fn lemma_wf(&self)
        requires
            self.inv(),
        ensures
            self.wf(),
    {
        Self::lemma_live_nonneg(self.entries@);
        assert forall|i: int| 0 <= i < self.spec_len() implies #[trigger] self@.contains_key(
            self.key_at(i),
        ) && self.slot_of(self.key_at(i)) == i by {
            assert(self.slots@.contains_key(self.entries@[i].0@));
        }
        assert forall|k: Seq<char>| #[trigger] self@.contains_key(k) implies 0 <= self.slot_of(k)
            < self.spec_len() && self.key_at(self.slot_of(k)) == k by {
            assert(self.slots@.contains_key(k));
        }
    }

    proof fn lemma_live_nonneg(s: Seq<(String, LogPointer)>)
        ensures
            total_length(s) >= 0,
        decreases s.len(),
    {
        if s.len() > 0 {
            Self::lemma_live_nonneg(s.drop_last());
        }
    }

    pub fn new() -> (r: KeyDir)
        ensures
            r.wf(),
            r@ == Map::<Seq<char>, LogPointer>::empty(),
            r.spec_len() == 0,
            r.live_bytes() == 0,
    {
        let r = KeyDir {
            entries: Vec::new(),
            slots: StringHashMap::new(),
            contents: Ghost(Map::empty()),
        };
        assert(r.slots@.dom() =~= r.contents@.dom());
        r
    }

    pub fn len(&self) -> (r: usize)
        ensures
            r == self.spec_len(),
    {
        self.entries.len()
    }

    pub fn contains_key(&self, key: &str) -> (r: bool)
        requires
            self.wf(),
        ensures
            r == self@.contains_key(key@),
    {
        self.slots.contains_key(key)
    }

    pub fn get(&self, key: &str) -> (r: Option<LogPointer>)
        requires
            self.wf(),
        ensures
            r == (if self@.contains_key(key@) {
                Some(self@[key@])
            } else {
                None::<LogPointer>
            }),
    {
        match self.slots.get(key) {
            Some(i) => {
                let i = *i;
                assert(self.slots@.contains_key(key@));
                Some(self.entries[i].1)
            },
            None => None,
        }
    }

    /// The pointer in slot `i`.
    pub fn pointer_at(&self, i: usize) -> (r: LogPointer)
        requires
            self.wf(),
            i < self.spec_len(),
        ensures
            r == self@[self.key_at(i as int)],
    {
        assert(self.slots@.contains_key(self.entries@[i as int].0@));
        self.entries[i].1
    }

    /// Maps `key` to `p`; returns the pointer that it displaced, if any.
    pub fn insert(&mut self, key: String, p: LogPointer) -> (r: Option<LogPointer>)
        requires
            old(self).wf(),
        ensures
            final(self).wf(),
            final(self)@ == old(self)@.insert(key@, p),
            r == (if old(self)@.contains_key(key@) {
                Some(old(self)@[key@])
            } else {
                None::<LogPointer>
            }),
            final(self).live_bytes() == old(self).live_bytes() + p.length - (match r {
                Some(q) => q.length as int,
                None => 0,
            }),
    {
        match self.slots.get(key.as_str()) {
            Some(i) => {
                let i = *i;
                assert(self.slots@.contains_key(key@));
                let displaced = self.entries[i].1;
                proof {
                    lemma_total_length_update(self.entries@, i as int, (self.entries@[i as int].0, p));
                }
                self.entries[i].1 = p;
                self.contents = Ghost(self.contents@.insert(key@, p));
                assert(self.slots@.dom() =~= self.contents@.dom());
                assert forall|j: int| 0 <= j < self.entries@.len() implies {
                    &&& #[trigger] self.slots@.contains_key(self.entries@[j].0@)
                    &&& self.slots@[self.entries@[j].0@] == j
                    &&& self.contents@[self.entries@[j].0@] == self.entries@[j].1
                } by {
                    assert(old(self).slots@.contains_key(old(self).entries@[j].0@));
                }
                proof {
                    self.lemma_wf();
                }
                Some(displaced)
            },
            None => {
                let i = self.entries.len();
                let k2 = key.clone();
                self.entries.push((key, p));
                self.slots.insert(k2, i);
                self.contents = Ghost(self.contents@.insert(key@, p));
                assert(self.entries@.drop_last() =~= old(self).entries@);
                assert(self.slots@.dom() =~= self.contents@.dom());
                assert forall|j: int| 0 <= j < self.entries@.len() implies {
                    &&& #[trigger] self.slots@.contains_key(self.entries@[j].0@)
                    &&& self.slots@[self.entries@[j].0@] == j
                    &&& self.contents@[self.entries@[j].0@] == self.entries@[j].1
                } by {
                    if j < i {
                        assert(old(self).entries@[j] == self.entries@[j]);
                        assert(old(self).slots@.contains_key(old(self).entries@[j].0@));
                    }
                }
                assert forall|k: Seq<char>| #[trigger] self.slots@.contains_key(k) implies {
                    &&& self.slots@[k] < self.entries@.len()
                    &&& self.entries@[self.slots@[k] as int].0@ == k
                } by {
                    if k != key@ {
                        assert(old(self).slots@.contains_key(k));
                    }
                }
                proof {
                    self.lemma_wf();
                }
                None
            },
        }
    }

    /// Removes `key`; returns the pointer that it had, if any.
    pub fn remove(&mut self, key: &str) -> (r: Option<LogPointer>)
        requires
            old(self).wf(),
        ensures
            final(self).wf(),
            final(self)@ == old(self)@.remove(key@),
            r == (if old(self)@.contains_key(key@) {
                Some(old(self)@[key@])
            } else {
                None::<LogPointer>
            }),
            final(self).live_bytes() == old(self).live_bytes() - (match r {
                Some(q) => q.length as int,
                None => 0,
            }),
    {
        match self.slots.get(key) {
            None => {
                assert(self.contents@.remove(key@) =~= self.contents@);
                None
            },
            Some(i) => {
                let i = *i;
                assert(self.slots@.contains_key(key@));
                let ghost old_entries = self.entries@;
                let ghost last = old_entries.last();
                let last_slot = self.entries.len() - 1;
                proof {
                    lemma_total_length_update(old_entries, i as int, last);
                    assert(old_entries.update(i as int, last).drop_last().push(last)
                        =~= old_entries.update(i as int, last));
                    assert(old_entries.update(i as int, last).last() == last);
                }
                let removed = self.entries.swap_remove(i);
                self.slots.remove(key);
                self.contents = Ghost(self.contents@.remove(key@));
                if i < last_slot {
                    let moved = self.entries[i].0.clone();
                    proof {
                        assert(old(self).slots@.contains_key(last.0@));
                    }
                    self.slots.insert(moved, i);
                }
                assert(self.slots@.dom() =~= self.contents@.dom()) by {
                    assert forall|k: Seq<char>|
                        self.slots@.contains_key(k) <==> self.contents@.contains_key(k) by {
                        if i < last_slot && k == last.0@ {
                            assert(old(self).slots@.contains_key(last.0@));
                        }
                    }
                }
                assert forall|j: int| 0 <= j < self.entries@.len() implies {
                    &&& #[trigger] self.slots@.contains_key(self.entries@[j].0@)
                    &&& self.slots@[self.entries@[j].0@] == j
                    &&& self.contents@[self.entries@[j].0@] == self.entries@[j].1
                } by {
                    if j != i {
                        assert(old_entries[j] == self.entries@[j]);
                        assert(old(self).slots@.contains_key(old_entries[j].0@));
                    } else {
                        assert(old(self).slots@.contains_key(last.0@));
                    }
                }
                assert forall|k: Seq<char>| #[trigger] self.slots@.contains_key(k) implies {
                    &&& self.slots@[k] < self.entries@.len()
                    &&& self.entries@[self.slots@[k] as int].0@ == k
                } by {
                    assert(old(self).slots@.contains_key(k));
                    if k != last.0@ {
                        assert(old(self).slots@[k] != last_slot);
                    }
                }
                proof {
                    self.lemma_inv_intro();
                    self.lemma_wf();
                }
                Some(removed.1)
            },
        }
    }

    /// Points the entry in slot `i` at `p`; its key stays.
    pub fn set_pointer_at(&mut self, i: usize, p: LogPointer)
        requires
            old(self).wf(),
            i < old(self).spec_len(),
        ensures
            final(self).wf(),
            final(self).spec_len() == old(self).spec_len(),
            forall|j: int| 0 <= j < old(self).spec_len() ==> #[trigger] final(self).key_at(j) == old(self).key_at(j),
            final(self)@ == old(self)@.insert(old(self).key_at(i as int), p),
            final(self).live_bytes() == old(self).live_bytes() - old(self)@[old(self).key_at(i as int)].length + p.length,
            p.length == old(self)@[old(self).key_at(i as int)].length ==> forall|j: int|
                0 <= j <= old(self).spec_len() ==> #[trigger] final(self).prefix_bytes(j) == old(self).prefix_bytes(j),
    {
        let ghost k = self.entries@[i as int].0@;
        assert(self.slots@.contains_key(k));
        let ghost before = self.entries@;
        proof {
            lemma_total_length_update(self.entries@, i as int, (self.entries@[i as int].0, p));
        }
        self.entries[i].1 = p;
        self.contents = Ghost(self.contents@.insert(k, p));
        assert(self.slots@.dom() =~= self.contents@.dom());
        assert forall|j: int| 0 <= j < self.entries@.len() implies {
            &&& #[trigger] self.slots@.contains_key(self.entries@[j].0@)
            &&& self.slots@[self.entries@[j].0@] == j
            &&& self.contents@[self.entries@[j].0@] == self.entries@[j].1
        } by {
            assert(old(self).slots@.contains_key(old(self).entries@[j].0@));
        }
        assert(self.entries@ == before.update(i as int, (before[i as int].0, p)));
        proof {
            if p.length == before[i as int].1.length {
                assert forall|j: int| 0 <= j <= before.len() implies #[trigger] self.prefix_bytes(j)
                    == old(self).prefix_bytes(j) by {
                    lemma_total_length_prefix_same(before, i as int, (before[i as int].0, p), j);
                }
            }
        }
        proof {
            self.lemma_wf();
        }
    }
}

} // verus!
