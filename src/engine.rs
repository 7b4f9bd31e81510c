use crate::keydir::{pointer_total, KeyDir, LogPointer};
use crate::protocol::{apply_record, replay_log, Cmd, KvsError, RecordView};
use crate::segment::strictly_ascending;
use vstd::prelude::*;

verus! {

/// Once more than this many bytes of the log are dead, the mutation that
/// crossed the line compacts the log before it returns.
pub const COMPACTION_THRESHOLD: u64 = 1024 * 1024;

/// One record that a compaction copies: the bytes at `from` go to
/// `to_offset` in the compacted segment.
#[derive(Clone, Copy, PartialEq, Eq, Debug)]
pub struct Relocation {
    pub from: LogPointer,
    pub to_offset: u64,
}

/// The file work that a compaction asks for, in this order: create segment
/// `compact_id` and append to it the bytes of each relocation in turn; flush
/// it; delete every segment in `obsolete`; create segment `active_id`, which
/// receives all later appends.
#[derive(Debug)]
pub struct CompactionPlan {
    pub compact_id: u64,
    pub active_id: u64,
    pub copies: Vec<Relocation>,
    pub obsolete: Vec<u64>,
}

/// The records of a decoded segment, over the views of their strings.
pub open spec fn records_view(rs: Seq<(Cmd, u64)>) -> Seq<RecordView> {
    rs.map_values(|p: (Cmd, u64)| p.0@)
}

/// The sum of the lengths of a decoded segment's records.
pub open spec fn lengths_total(rs: Seq<(Cmd, u64)>) -> int
    decreases rs.len(),
{
    if rs.len() == 0 {
        0
    } else {
        lengths_total(rs.drop_last()) + rs.last().1
    }
}

proof fn lemma_lengths_total_prefix(rs: Seq<(Cmd, u64)>, i: int)
    requires
        0 <= i <= rs.len(),
    ensures
        0 <= lengths_total(rs.take(i)) <= lengths_total(rs),
    decreases rs.len(),
{
    if i == rs.len() {
        assert(rs.take(i) =~= rs);
        if rs.len() > 0 {
            lemma_lengths_total_prefix(rs.drop_last(), i - 1);
            assert(rs.drop_last().take(i - 1) =~= rs.drop_last());
        }
    } else {
        lemma_lengths_total_prefix(rs.drop_last(), i);
        assert(rs.drop_last().take(i) =~= rs.take(i));
    }
}

/// The state of a store that is not held in its files: the index, the
/// segments that exist, and the byte counts of the log.
///
/// Its view is the map from each live key to its value.  Beside it the state
/// keeps, as ghost values, the whole log in replay order and the record that
/// lies at each pointer.
pub struct StoreState {
    index: KeyDir,
    segments: Vec<u64>,
    active_len: u64,
    total_bytes: u64,
    dead_bytes: u64,
    contents: Ghost<Map<Seq<char>, Seq<char>>>,
    log: Ghost<Seq<RecordView>>,
    records: Ghost<Map<LogPointer, RecordView>>,
}

impl View for StoreState {
    type V = Map<Seq<char>, Seq<char>>;

    closed spec fn view(&self) -> Map<Seq<char>, Seq<char>> {
        self.contents@
    }
}

impl StoreState {
    /// The pointer of each live key.
    pub closed spec fn pointers(&self) -> Map<Seq<char>, LogPointer> {
        self.index@
    }

    /// Every record of the log, segment by segment in ascending id order, and
    /// within a segment in the order of its offsets.
    pub closed spec fn spec_log(&self) -> Seq<RecordView> {
        self.log@
    }

    /// The record that lies at `p`.
    pub closed spec fn record_at(&self, p: LogPointer) -> RecordView {
        self.records@[p]
    }

    /// The segments that exist, in ascending order; the last is the active one.
    pub closed spec fn segment_ids(&self) -> Seq<u64> {
        self.segments@
    }

    pub closed spec fn spec_dead_bytes(&self) -> nat {
        self.dead_bytes as nat
    }

    /// The size of all segments together.
    pub closed spec fn spec_total_bytes(&self) -> nat {
        self.total_bytes as nat
    }

    /// The size of the active segment, where the next record goes.
    pub closed spec fn spec_active_len(&self) -> nat {
        self.active_len as nat
    }

    /// The bytes of the records that the index points at.
    pub closed spec fn live_bytes(&self) -> int {
        self.index.live_bytes()
    }

    /// The number of live keys.
    pub closed spec fn key_count(&self) -> nat {
        self.index.spec_len()
    }

    /// The key in position `j` of the order in which a compaction copies.
    pub closed spec fn key_at(&self, j: int) -> Seq<char> {
        self.index.key_at(j)
    }

    /// The pointers of the live keys, in the order in which a compaction copies.
    pub closed spec fn live_pointers(&self) -> Seq<LogPointer> {
        self.index.pointer_seq()
    }

    /// The position of a live key in the order in which a compaction copies.
    pub closed spec fn slot_of(&self, k: Seq<char>) -> int {
        self.index.slot_of(k)
    }

    pub open spec fn is_open(&self) -> bool {
        self.segment_ids().len() > 0
    }

    pub open spec fn spec_active_id(&self) -> u64 {
        self.segment_ids().last()
    }

    pub closed spec fn wf(&self) -> bool {
        &&& self.index.wf()
        &&& self.index@.dom() == self.contents@.dom()
        &&& forall|k: Seq<char>|
            #[trigger] self.index@.contains_key(k) ==> {
                &&& self.records@.contains_key(self.index@[k])
                &&& self.records@[self.index@[k]] == (RecordView::Put {
                    key: k,
                    value: self.contents@[k],
                })
                &&& self.segments@.contains(self.index@[k].file_id)
                &&& self.index@[k].length > 0
            }
        &&& self.contents@ == replay_log(self.log@)
        &&& strictly_ascending(self.segments@)
        &&& forall|p: LogPointer|
            #[trigger] self.records@.contains_key(p) ==> {
                &&& self.segments@.len() > 0
                &&& p.file_id <= self.segments@.last()
                &&& (p.file_id == self.segments@.last() ==> p.offset + p.length
                    <= self.active_len)
            }
        &&& self.total_bytes == self.index.live_bytes() + self.dead_bytes
        &&& self.active_len <= self.total_bytes
    }

    /// A store with no segment and no key.
    pub fn new() -> (r: StoreState)
        ensures
            r.wf(),
            r@ == Map::<Seq<char>, Seq<char>>::empty(),
            r.spec_log() == Seq::<RecordView>::empty(),
            r.segment_ids() == Seq::<u64>::empty(),
            r.spec_dead_bytes() == 0,
            r.spec_total_bytes() == 0,
    {
        let r = StoreState {
            index: KeyDir::new(),
            segments: Vec::new(),
            active_len: 0,
            total_bytes: 0,
            dead_bytes: 0,
            contents: Ghost(Map::empty()),
            log: Ghost(Seq::empty()),
            records: Ghost(Map::empty()),
        };
        assert(r.index@.dom() =~= r.contents@.dom());
        r
    }

    pub fn dead_bytes(&self) -> (r: u64)
        ensures
            r == self.spec_dead_bytes(),
    {
        self.dead_bytes
    }

    pub fn total_bytes(&self) -> (r: u64)
        ensures
            r == self.spec_total_bytes(),
    {
        self.total_bytes
    }

    /// The id of the active segment, if there is one.
    pub fn active_id(&self) -> (r: Option<u64>)
        ensures
            r == (if self.is_open() {
                Some(self.spec_active_id())
            } else {
                None::<u64>
            }),
    {
        if self.segments.len() == 0 {
            None
        } else {
            Some(self.segments[self.segments.len() - 1])
        }
    }

    pub fn contains_key(&self, key: &str) -> (r: bool)
        requires
            self.wf(),
        ensures
            r == self@.contains_key(key@),
    {
        self.index.contains_key(key)
    }

    /// Where the value of `key` can be read, if the key is live: a pointer into
    /// an existing segment, at which lies the `Put` that set the key's value.
    pub fn lookup(&self, key: &str) -> (r: Option<LogPointer>)
        requires
            self.wf(),
        ensures
            match r {
                Some(p) => {
                    &&& self@.contains_key(key@)
                    &&& p == self.pointers()[key@]
                    &&& self.record_at(p) == (RecordView::Put { key: key@, value: self@[key@] })
                    &&& self.segment_ids().contains(p.file_id)
                },
                None => !self@.contains_key(key@),
            },
    {
        let r = self.index.get(key);
        if r.is_some() {
            assert(self.index@.contains_key(key@));
        }
        r
    }

    /// The dead bytes that appending `r` of `length` bytes adds: the record that
    /// it supersedes, and a removal record itself.
    pub open spec fn dead_added(&self, r: RecordView, length: u64) -> int {
        let displaced = match r {
            RecordView::Put { key, .. } => key,
            RecordView::Rm { key } => key,
        };
        (if self.pointers().contains_key(displaced) {
            self.pointers()[displaced].length as int
        } else {
            0
        }) + (if r is Rm {
            length as int
        } else {
            0
        })
    }

    /// What appending a record of `length` bytes to the active segment does to
    /// the state.
    pub open spec fn appended(&self, after: &StoreState, r: RecordView, length: u64) -> bool {
        let p = LogPointer { file_id: self.spec_active_id(), offset: self.spec_active_len() as u64, length };
        &&& after@ == apply_record(self@, r)
        &&& after.spec_log() == self.spec_log().push(r)
        &&& after.segment_ids() == self.segment_ids()
        &&& after.spec_active_len() == self.spec_active_len() + length
        &&& after.spec_total_bytes() == self.spec_total_bytes() + length
        &&& after.spec_dead_bytes() == self.spec_dead_bytes() + self.dead_added(r, length)
        &&& after.pointers() == match r {
            RecordView::Put { key, .. } => self.pointers().insert(key, p),
            RecordView::Rm { key } => self.pointers().remove(key),
        }
    }

    /// When appending a record of `length` bytes is possible: there is an
    /// active segment, the record is not empty, and the log stays within the
    /// range of a byte offset.
    pub open spec fn can_append(&self, length: u64) -> bool {
        &&& self.is_open()
        &&& length > 0
        &&& self.spec_total_bytes() + length <= u64::MAX
    }

    /// Takes into account a record of `length` bytes that was just appended to
    /// the active segment.
    fn append(&mut self, cmd: &Cmd, length: u64) -> (r: Result<(), KvsError>)
        requires
            old(self).wf(),
        ensures
            final(self).wf(),
            r is Ok <==> old(self).can_append(length),
            r is Ok ==> old(self).appended(final(self), cmd@, length),
            r is Err ==> *final(self) == *old(self),
    {
        if self.segments.len() == 0 {
            return Err(KvsError::Corruption(String::from_str("no active segment")));
        }
        if length == 0 {
            return Err(KvsError::Corruption(String::from_str("empty record")));
        }
        if length > u64::MAX - self.total_bytes {
            return Err(KvsError::Io(String::from_str("the log outgrew the range of a file offset")));
        }
        let active = self.segments[self.segments.len() - 1];
        let p = LogPointer { file_id: active, offset: self.active_len, length };
        let ghost rec = cmd@;
        let ghost old_records = self.records@;
        assert(!self.records@.contains_key(p));
        match cmd {
            Cmd::Put { key, value } => {
                let ghost k = key@;
                let ghost v = value@;
                let displaced = self.index.insert(key.clone(), p);
                match displaced {
                    Some(d) => {
                        self.dead_bytes = self.dead_bytes + d.length;
                    },
                    None => {},
                }
                self.records = Ghost(self.records@.insert(p, RecordView::Put { key: k, value: v }));
                self.contents = Ghost(self.contents@.insert(k, v));
                assert(self.index@.dom() =~= self.contents@.dom());
            },
            Cmd::Rm { key } => {
                let ghost k = key@;
                let displaced = self.index.remove(key.as_str());
                match displaced {
                    Some(d) => {
                        self.dead_bytes = self.dead_bytes + d.length;
                    },
                    None => {},
                }
                self.dead_bytes = self.dead_bytes + length;
                self.contents = Ghost(self.contents@.remove(k));
                assert(self.index@.dom() =~= self.contents@.dom());
            },
        }
        self.log = Ghost(self.log@.push(rec));
        self.active_len = self.active_len + length;
        self.total_bytes = self.total_bytes + length;
        proof {
            assert(self.log@.drop_last() =~= old(self).log@);
            assert(self.segments@[self.segments@.len() - 1] == active);
            assert forall|k: Seq<char>| #[trigger] self.index@.contains_key(k) implies {
                &&& self.records@.contains_key(self.index@[k])
                &&& self.records@[self.index@[k]] == (RecordView::Put {
                    key: k,
                    value: self.contents@[k],
                })
                &&& self.segments@.contains(self.index@[k].file_id)
                &&& self.index@[k].length > 0
            } by {
                if self.index@[k] != p {
                    assert(old(self).index@.contains_key(k));
                }
            }
        }
        Ok(())
    }

    /// Takes into account a record read back from a segment while the store is
    /// opened.  The segments are read in ascending id order, and each from its
    /// start; the record is the next one of the active segment.
    pub fn replay(&mut self, cmd: Cmd, length: u64) -> (r: Result<(), KvsError>)
        requires
            old(self).wf(),
        ensures
            final(self).wf(),
            r is Ok <==> old(self).can_append(length),
            r is Ok ==> old(self).appended(final(self), cmd@, length),
            r is Err ==> *final(self) == *old(self),
    {
        self.append(&cmd, length)
    }

    /// What a compaction that turned `self` into `after` did, as `plan`
    /// describes it: every live record moved, end to end, into segment
    /// `compact_id`, in the order of the slots; only that segment and the new
    /// active one are left; no byte is dead.
    pub open spec fn compacted(&self, after: &StoreState, plan: &CompactionPlan) -> bool {
        &&& self.is_open()
        &&& plan.compact_id == self.spec_active_id() + 1
        &&& plan.active_id == self.spec_active_id() + 2
        &&& plan.obsolete@ == self.segment_ids()
        &&& forall|i: int| 0 <= i < plan.obsolete@.len() ==> #[trigger] plan.obsolete@[i] < plan.compact_id
        &&& after.segment_ids() == seq![plan.compact_id, plan.active_id]
        &&& after@ == self@
        &&& after.spec_active_len() == 0
        &&& after.spec_dead_bytes() == 0
        &&& after.spec_total_bytes() == self.live_bytes()
        &&& after.live_bytes() == self.live_bytes()
        &&& after.pointers().dom() == self.pointers().dom()
        &&& plan.copies@.len() == self.key_count()
        &&& forall|k: Seq<char>|
            #[trigger] self.pointers().contains_key(k) ==> {
                let j = self.slot_of(k);
                &&& 0 <= j < plan.copies@.len()
                &&& plan.copies@[j].from == self.pointers()[k]
                &&& after.pointers()[k] == LogPointer {
                    file_id: plan.compact_id,
                    offset: plan.copies@[j].to_offset,
                    length: self.pointers()[k].length,
                }
            }
        &&& plan.copies@.len() > 0 ==> plan.copies@[0].to_offset == 0
        &&& forall|j: int|
            0 <= j < plan.copies@.len() - 1 ==> #[trigger] plan.copies@[j + 1].to_offset
                == plan.copies@[j].to_offset + plan.copies@[j].from.length
    }

    /// Copies every live record into a fresh segment and drops the others.
    /// The two ids after the active one are taken: the lower for the compacted
    /// segment, the higher for the new active segment, so that a replay in
    /// ascending id order reads the compacted records after any segment that
    /// a crash left behind.
    pub fn compact(&mut self) -> (r: Result<CompactionPlan, KvsError>)
        requires
            old(self).wf(),
        ensures
            final(self).wf(),
            r is Ok <==> old(self).is_open() && old(self).spec_active_id() <= u64::MAX - 2,
            r matches Ok(plan) ==> old(self).compacted(final(self), &plan),
            r is Err ==> *final(self) == *old(self),
    {
        let n_segs = self.segments.len();
        if n_segs == 0 {
            return Err(KvsError::Corruption(String::from_str("no active segment")));
        }
        let old_active = self.segments[n_segs - 1];
        if old_active > u64::MAX - 2 {
            return Err(KvsError::Io(String::from_str("segment ids are exhausted")));
        }
        let compact_id = old_active + 1;
        let active_id = old_active + 2;
        let mut index = KeyDir::new();
        std::mem::swap(&mut index, &mut self.index);
        let ghost old_index = index;
        let ghost contents = self.contents@;
        let n = index.len();
        let mut copies: Vec<Relocation> = Vec::new();
        let mut offset: u64 = 0;
        let ghost mut new_records: Map<LogPointer, RecordView> = Map::empty();
        let ghost mut new_log: Seq<RecordView> = Seq::empty();
        let mut i: usize = 0;
        proof {
            old_index.lemma_prefix_bytes_zero();
        }
        assert(replay_log(new_log) =~= Map::new(
            |k: Seq<char>| old_index@.contains_key(k) && old_index.slot_of(k) < 0,
            |k: Seq<char>| contents[k],
        ));
        while i < n
            invariant
                old_index.wf(),
                index.wf(),
                n == old_index.spec_len(),
                index.spec_len() == n,
                index@.dom() == old_index@.dom(),
                old_index@.dom() == contents.dom(),
                forall|j: int| 0 <= j < n ==> #[trigger] index.key_at(j) == old_index.key_at(j),
                forall|j: int| 0 <= j <= n ==> #[trigger] index.prefix_bytes(j) == old_index.prefix_bytes(j),
                index.live_bytes() == old_index.live_bytes(),
                old_index.live_bytes() <= u64::MAX,
                forall|k: Seq<char>| #[trigger] old_index@.contains_key(k) ==> old_index@[k].length > 0,
                0 <= i <= n,
                copies@.len() == i,
                offset == old_index.prefix_bytes(i as int),
                forall|j: int|
                    0 <= j < i ==> {
                        &&& (#[trigger] copies@[j]).from == old_index@[old_index.key_at(j)]
                        &&& copies@[j].to_offset == old_index.prefix_bytes(j)
                        &&& index@[old_index.key_at(j)] == LogPointer {
                            file_id: compact_id,
                            offset: copies@[j].to_offset,
                            length: copies@[j].from.length,
                        }
                        &&& new_records.contains_key(index@[old_index.key_at(j)])
                        &&& new_records[index@[old_index.key_at(j)]] == (RecordView::Put {
                            key: old_index.key_at(j),
                            value: contents[old_index.key_at(j)],
                        })
                    },
                forall|j: int|
                    i <= j < n ==> #[trigger] index@[old_index.key_at(j)] == old_index@[old_index.key_at(j)],
                forall|p: LogPointer|
                    #[trigger] new_records.contains_key(p) ==> p.file_id == compact_id && p.offset
                        + p.length <= offset,
                replay_log(new_log) == Map::new(
                    |k: Seq<char>| old_index@.contains_key(k) && old_index.slot_of(k) < i,
                    |k: Seq<char>| contents[k],
                ),
            decreases n - i,
        {
            let from = index.pointer_at(i);
            proof {
                old_index.lemma_prefix_bytes(i as int);
            }
            let to = LogPointer { file_id: compact_id, offset, length: from.length };
            copies.push(Relocation { from, to_offset: offset });
            index.set_pointer_at(i, to);
            proof {
                let k = old_index.key_at(i as int);
                let v = contents[k];
                assert(old_index@.contains_key(k));
                assert(!new_records.contains_key(to));
                new_records = new_records.insert(to, RecordView::Put { key: k, value: v });
                let prev_log = new_log;
                new_log = new_log.push(RecordView::Put { key: k, value: v });
                assert(new_log.drop_last() =~= prev_log);
                assert(replay_log(new_log) =~= Map::new(
                    |k2: Seq<char>| old_index@.contains_key(k2) && old_index.slot_of(k2) < i + 1,
                    |k2: Seq<char>| contents[k2],
                ));
                assert forall|j: int| 0 <= j < i + 1 implies {
                    &&& (#[trigger] copies@[j]).from == old_index@[old_index.key_at(j)]
                    &&& copies@[j].to_offset == old_index.prefix_bytes(j)
                    &&& index@[old_index.key_at(j)] == LogPointer {
                        file_id: compact_id,
                        offset: copies@[j].to_offset,
                        length: copies@[j].from.length,
                    }
                    &&& new_records.contains_key(index@[old_index.key_at(j)])
                    &&& new_records[index@[old_index.key_at(j)]] == (RecordView::Put {
                        key: old_index.key_at(j),
                        value: contents[old_index.key_at(j)],
                    })
                } by {
                    if j < i {
                        assert(old_index.key_at(j) != k);
                    }
                }
                assert forall|j: int| i + 1 <= j < n implies #[trigger] index@[old_index.key_at(j)]
                    == old_index@[old_index.key_at(j)] by {
                    assert(old_index.key_at(j) != k);
                }
            }
            offset = offset + from.length;
            i = i + 1;
        }
        let mut obsolete: Vec<u64> = Vec::new();
        obsolete.push(compact_id);
        obsolete.push(active_id);
        std::mem::swap(&mut obsolete, &mut self.segments);
        self.index = index;
        self.active_len = 0;
        self.total_bytes = offset;
        self.dead_bytes = 0;
        self.records = Ghost(new_records);
        self.log = Ghost(new_log);
        let plan = CompactionPlan { compact_id, active_id, copies, obsolete };
        proof {
            assert(self.segments@ =~= seq![compact_id, active_id]);
            assert forall|i: int| 0 <= i < plan.obsolete@.len() implies #[trigger] plan.obsolete@[i]
                < plan.compact_id by {
                if i < plan.obsolete@.len() - 1 {
                    assert(plan.obsolete@[i] < plan.obsolete@[plan.obsolete@.len() - 1]);
                }
            }
            if n > 0 {
                old_index.lemma_prefix_bytes(0);
            } else {
                assert(old_index.spec_len() == 0);
                old_index.lemma_prefix_bytes_empty();
            }
            assert(replay_log(new_log) =~= contents);
            assert forall|k: Seq<char>| #[trigger] self.index@.contains_key(k) implies {
                &&& self.records@.contains_key(self.index@[k])
                &&& self.records@[self.index@[k]] == (RecordView::Put {
                    key: k,
                    value: self.contents@[k],
                })
                &&& self.segments@.contains(self.index@[k].file_id)
                &&& self.index@[k].length > 0
            } by {
                let j = old_index.slot_of(k);
                assert(old_index@.contains_key(k));
                assert(old_index.key_at(j) == k);
                assert(copies@[j].from == old_index@[old_index.key_at(j)]);
                assert(self.segments@[0] == compact_id);
            }
            assert forall|k: Seq<char>| #[trigger] old(self).pointers().contains_key(k) implies {
                let j = old(self).slot_of(k);
                &&& 0 <= j < plan.copies@.len()
                &&& plan.copies@[j].from == old(self).pointers()[k]
                &&& final(self).pointers()[k] == LogPointer {
                    file_id: plan.compact_id,
                    offset: plan.copies@[j].to_offset,
                    length: old(self).pointers()[k].length,
                }
            } by {
                let j = old_index.slot_of(k);
                assert(old_index.key_at(j) == k);
            }
            assert forall|j: int| 0 <= j < plan.copies@.len() - 1 implies #[trigger] plan.copies@[j + 1].to_offset
                == plan.copies@[j].to_offset + plan.copies@[j].from.length by {
                old_index.lemma_prefix_bytes(j);
            }
        }
        Ok(plan)
    }

    /// After a mutation: the log is compacted when its dead bytes passed the
    /// threshold and two more segment ids are free.
    fn compact_if_due(&mut self) -> (r: Option<CompactionPlan>)
        requires
            old(self).wf(),
            old(self).is_open(),
        ensures
            final(self).wf(),
            match r {
                Some(plan) => old(self).compacted(final(self), &plan),
                None => *final(self) == *old(self),
            },
            r is None <==> (old(self).spec_dead_bytes() <= COMPACTION_THRESHOLD
                || old(self).spec_active_id() > u64::MAX - 2),
    {
        if self.dead_bytes > COMPACTION_THRESHOLD {
            match self.compact() {
                Ok(plan) => Some(plan),
                Err(_) => None,
            }
        } else {
            None
        }
    }

    /// Takes into account a `Put` of `key` and `value`, of `length` bytes, that
    /// was just appended to the active segment and flushed; then compacts the
    /// log if that is due, and returns what the compaction asks for.
    pub fn set(&mut self, key: String, value: String, length: u64) -> (r: Result<
        Option<CompactionPlan>,
        KvsError,
    >)
        requires
            old(self).wf(),
        ensures
            final(self).wf(),
            r is Ok <==> old(self).can_append(length),
            r is Err ==> *final(self) == *old(self),
            r is Ok ==> final(self)@ == old(self)@.insert(key@, value@),
            r matches Ok(None) ==> old(self).appended(
                final(self),
                RecordView::Put { key: key@, value: value@ },
                length,
            ),
            r matches Ok(Some(plan)) ==> exists|mid: StoreState|
                #![trigger mid.compacted(final(self), &plan)]
                old(self).appended(&mid, RecordView::Put { key: key@, value: value@ }, length)
                    && mid.compacted(final(self), &plan),
            r is Ok ==> (r matches Ok(Some(_)) <==> old(self).spec_dead_bytes() + old(self).dead_added(
                RecordView::Put { key: key@, value: value@ },
                length,
            ) > COMPACTION_THRESHOLD && old(self).spec_active_id() <= u64::MAX - 2),
            r is Ok ==> final(self).spec_dead_bytes() <= COMPACTION_THRESHOLD
                || final(self).spec_active_id() > u64::MAX - 2,
    {
        let cmd = Cmd::Put { key, value };
        match self.append(&cmd, length) {
            Err(e) => Err(e),
            Ok(()) => {
                let ghost mid = *self;
                let plan = self.compact_if_due();
                Ok(plan)
            },
        }
    }

    /// Takes into account a `Rm` of `key`, of `length` bytes, that was just
    /// appended to the active segment and flushed; then compacts the log if
    /// that is due, and returns what the compaction asks for.  A key that is
    /// not live is refused with `KeyNotFound` before anything changes: the
    /// caller asks `contains_key` before it appends the record.
    pub fn remove(&mut self, key: String, length: u64) -> (r: Result<
        Option<CompactionPlan>,
        KvsError,
    >)
        requires
            old(self).wf(),
        ensures
            final(self).wf(),
            !old(self)@.contains_key(key@) ==> r matches Err(KvsError::KeyNotFound),
            old(self)@.contains_key(key@) ==> (r is Ok <==> old(self).can_append(length)),
            r is Err ==> *final(self) == *old(self),
            r is Ok ==> final(self)@ == old(self)@.remove(key@),
            r matches Ok(None) ==> old(self).appended(
                final(self),
                RecordView::Rm { key: key@ },
                length,
            ),
            r matches Ok(Some(plan)) ==> exists|mid: StoreState|
                #![trigger mid.compacted(final(self), &plan)]
                old(self).appended(&mid, RecordView::Rm { key: key@ }, length)
                    && mid.compacted(final(self), &plan),
            r is Ok ==> (r matches Ok(Some(_)) <==> old(self).spec_dead_bytes() + old(self).dead_added(
                RecordView::Rm { key: key@ },
                length,
            ) > COMPACTION_THRESHOLD && old(self).spec_active_id() <= u64::MAX - 2),
            r is Ok ==> final(self).spec_dead_bytes() <= COMPACTION_THRESHOLD
                || final(self).spec_active_id() > u64::MAX - 2,
    {
        if !self.index.contains_key(key.as_str()) {
            return Err(KvsError::KeyNotFound);
        }
        let cmd = Cmd::Rm { key };
        match self.append(&cmd, length) {
            Err(e) => Err(e),
            Ok(()) => {
                let ghost mid = *self;
                let plan = self.compact_if_due();
                Ok(plan)
            },
        }
    }

    /// Takes into account all records of the active segment, as read back
    /// when the store is opened, in their order; each comes with its length.
    /// On success the store holds the fold of its whole log, this segment
    /// included.  A failure stops the replay after the records before it.
    pub fn replay_segment(&mut self, records: &Vec<(Cmd, u64)>) -> (r: Result<(), KvsError>)
        requires
            old(self).wf(),
        ensures
            final(self).wf(),
            r is Ok <==> (records@.len() == 0 || (old(self).is_open() && (forall|i: int|
                0 <= i < records@.len() ==> #[trigger] records@[i].1 > 0) && old(self).spec_total_bytes()
                + lengths_total(records@) <= u64::MAX)),
            r is Ok ==> {
                &&& final(self).spec_log() == old(self).spec_log() + records_view(records@)
                &&& final(self)@ == replay_log(final(self).spec_log())
                &&& final(self).segment_ids() == old(self).segment_ids()
                &&& final(self).spec_total_bytes() == old(self).spec_total_bytes() + lengths_total(records@)
            },
            r is Err ==> exists|n: int|
                0 <= n < records@.len() && final(self).spec_log() == old(self).spec_log()
                    + #[trigger] records_view(records@.take(n)),
    {
        let n = records.len();
        let mut i: usize = 0;
        assert(records@.take(0) =~= Seq::<(Cmd, u64)>::empty());
        assert(old(self).spec_log() + records_view(records@.take(0)) =~= old(self).spec_log());
        while i < n
            invariant
                self.wf(),
                n == records@.len(),
                0 <= i <= n,
                self.spec_log() == old(self).spec_log() + records_view(records@.take(i as int)),
                self.spec_total_bytes() == old(self).spec_total_bytes() + lengths_total(records@.take(i as int)),
                self.segment_ids() == old(self).segment_ids(),
                forall|j: int| 0 <= j < i ==> #[trigger] records@[j].1 > 0,
                i > 0 ==> old(self).is_open(),
            decreases n - i,
        {
            let length = records[i].1;
            let ghost before_log = self.spec_log();
            match self.append(&records[i].0, length) {
                Err(e) => {
                    proof {
                        lemma_lengths_total_prefix(records@, i + 1);
                        assert(records@.take(i + 1).drop_last() =~= records@.take(i as int));
                        assert(records@.take(i + 1).last() == records@[i as int]);
                        if length == 0 {
                            assert(records@[i as int].1 == 0);
                        }
                        assert(records_view(records@.take(i as int)) == records_view(records@.take(i as int)));
                    }
                    return Err(e);
                },
                Ok(()) => {},
            }
            proof {
                assert(records@.take(i + 1).drop_last() =~= records@.take(i as int));
                assert(records_view(records@.take(i + 1)) =~= records_view(records@.take(i as int)).push(
                    records@[i as int].0@,
                ));
                assert(self.spec_log() =~= old(self).spec_log() + records_view(records@.take(i + 1)));
            }
            i = i + 1;
        }
        proof {
            assert(records@.take(n as int) =~= records@);
            assert(self.spec_total_bytes() <= u64::MAX);
        }
        Ok(())
    }

    /// Makes `id` the active segment.  Segment ids only grow: an id that is not
    /// above the active one is refused.
    pub fn start_segment(&mut self, id: u64) -> (r: Result<(), KvsError>)
        requires
            old(self).wf(),
        ensures
            final(self).wf(),
            r is Ok <==> (!old(self).is_open() || old(self).spec_active_id() < id),
            r is Ok ==> {
                &&& final(self).segment_ids() == old(self).segment_ids().push(id)
                &&& forall|i: int|
                    0 <= i < old(self).segment_ids().len() ==> #[trigger] old(self).segment_ids()[i] < id
                &&& final(self).spec_active_len() == 0
                &&& final(self)@ == old(self)@
                &&& final(self).spec_log() == old(self).spec_log()
                &&& final(self).pointers() == old(self).pointers()
                &&& final(self).spec_dead_bytes() == old(self).spec_dead_bytes()
                &&& final(self).spec_total_bytes() == old(self).spec_total_bytes()
            },
            r is Err ==> *final(self) == *old(self),
    {
        let n = self.segments.len();
        if n > 0 && self.segments[n - 1] >= id {
            return Err(KvsError::Corruption(String::from_str("segment ids must increase")));
        }
        let ghost old_segs = self.segments@;
        proof {
            assert forall|i: int| 0 <= i < old_segs.len() implies #[trigger] old_segs[i] < id by {
                if i < old_segs.len() - 1 {
                    assert(old_segs[i] < old_segs[old_segs.len() - 1]);
                }
            }
        }
        self.segments.push(id);
        self.active_len = 0;
        proof {
            assert forall|k: Seq<char>| #[trigger] self.index@.contains_key(k) implies self.segments@.contains(
                self.index@[k].file_id,
            ) by {
                let f = self.index@[k].file_id;
                assert(old_segs.contains(f));
                let w = choose|w: int| 0 <= w < old_segs.len() && old_segs[w] == f;
                assert(self.segments@[w] == f);
            }
            assert forall|p: LogPointer| #[trigger] self.records@.contains_key(p) implies p.file_id
                < id by {
                assert(old_segs.len() > 0);
                assert(p.file_id <= old_segs[old_segs.len() - 1]);
            }
        }
        Ok(())
    }

    /// Makes a new active segment with the next free id (one more than the
    /// active one, or 1 for a store without segments) and returns that id.
    pub fn open_next_segment(&mut self) -> (r: Result<u64, KvsError>)
        requires
            old(self).wf(),
        ensures
            final(self).wf(),
            r is Ok <==> (!old(self).is_open() || old(self).spec_active_id() < u64::MAX),
            r matches Ok(id) ==> {
                &&& id == (if old(self).is_open() {
                    old(self).spec_active_id() + 1
                } else {
                    1
                })
                &&& final(self).segment_ids() == old(self).segment_ids().push(id)
                &&& forall|i: int|
                    0 <= i < old(self).segment_ids().len() ==> #[trigger] old(self).segment_ids()[i] < id
                &&& final(self).spec_active_len() == 0
                &&& final(self)@ == old(self)@
                &&& final(self).spec_log() == old(self).spec_log()
                &&& final(self).pointers() == old(self).pointers()
                &&& final(self).spec_dead_bytes() == old(self).spec_dead_bytes()
                &&& final(self).spec_total_bytes() == old(self).spec_total_bytes()
            },
            r is Err ==> *final(self) == *old(self),
    {
        let n = self.segments.len();
        let id = if n == 0 {
            1
        } else {
            let last = self.segments[n - 1];
            if last == u64::MAX {
                return Err(KvsError::Io(String::from_str("segment ids are exhausted")));
            }
            last + 1
        };
        match self.start_segment(id) {
            Ok(()) => Ok(id),
            Err(e) => Err(e),
        }
    }
}

/// A store holds exactly what its log says: its contents are the records of
/// the log, segment by segment and offset by offset, applied in turn to the
/// empty store.  A store opened by replaying the segments is therefore the
/// fold of their records.
pub proof fn lemma_contents_are_replay(s: &StoreState)
    requires
        s.wf(),
    ensures
        s@ == replay_log(s.spec_log()),
{
}

/// Two stores whose logs hold the same records answer every lookup with the
/// same value: reopening a directory gives back what the last session held.
pub proof fn lemma_reopen_same_contents(a: &StoreState, b: &StoreState)
    requires
        a.wf(),
        b.wf(),
        a.spec_log() == b.spec_log(),
    ensures
        a@ == b@,
        forall|k: Seq<char>| #[trigger] a.pointers().contains_key(k) <==> b.pointers().contains_key(k),
        forall|k: Seq<char>|
            #[trigger] a.pointers().contains_key(k) ==> a.record_at(a.pointers()[k]) == b.record_at(
                b.pointers()[k],
            ),
{
}

/// After a `Put` of `k` and `v`, the index points `k` at a record that sets
/// `k` to `v`: a lookup of `k` finds `v`.
pub proof fn lemma_get_after_set(before: &StoreState, after: &StoreState, k: Seq<char>, v: Seq<char>)
    requires
        after.wf(),
        after@ == before@.insert(k, v),
    ensures
        after.pointers().contains_key(k),
        after.record_at(after.pointers()[k]) == (RecordView::Put { key: k, value: v }),
{
    assert(after@.contains_key(k));
}

/// After a removal of `k`, the index no longer holds `k`: a lookup of `k`
/// finds nothing.
pub proof fn lemma_get_after_remove(before: &StoreState, after: &StoreState, k: Seq<char>)
    requires
        after.wf(),
        after@ == before@.remove(k),
    ensures
        !after.pointers().contains_key(k),
{
}

/// Every segment that the index points into exists.
pub proof fn lemma_index_in_segments(s: &StoreState)
    requires
        s.wf(),
    ensures
        forall|k: Seq<char>|
            #[trigger] s.pointers().contains_key(k) ==> s.segment_ids().contains(s.pointers()[k].file_id),
{
}

/// The segments hold the live records and the dead bytes, nothing else; so
/// while the dead bytes stay within the threshold, as they do after every
/// mutation, the log exceeds the live data by at most the threshold.
pub proof fn lemma_log_size(s: &StoreState)
    requires
        s.wf(),
    ensures
        s.spec_total_bytes() == s.live_bytes() + s.spec_dead_bytes(),
        s.spec_dead_bytes() <= COMPACTION_THRESHOLD ==> s.spec_total_bytes() <= s.live_bytes()
            + COMPACTION_THRESHOLD,
{
}

/// The key that a record is about.
pub open spec fn record_key(r: RecordView) -> Seq<char> {
    match r {
        RecordView::Put { key, .. } => key,
        RecordView::Rm { key } => key,
    }
}

/// Every value that a store holds was set by a `Put` of its log: a lookup
/// never yields a value that no writer stored.
pub proof fn lemma_values_come_from_log(rs: Seq<RecordView>, k: Seq<char>)
    requires
        replay_log(rs).contains_key(k),
    ensures
        exists|i: int|
            0 <= i < rs.len() && #[trigger] rs[i] == (RecordView::Put { key: k, value: replay_log(rs)[k] }),
    decreases rs.len(),
{
    let last = rs.last();
    if last == (RecordView::Put { key: k, value: replay_log(rs)[k] }) {
        assert(rs[rs.len() - 1] == last);
    } else {
        let prev = rs.drop_last();
        assert(replay_log(prev).contains_key(k) && replay_log(prev)[k] == replay_log(rs)[k]);
        lemma_values_come_from_log(prev, k);
        let i = choose|i: int|
            0 <= i < prev.len() && #[trigger] prev[i] == (RecordView::Put { key: k, value: replay_log(prev)[k] });
        assert(rs[i] == prev[i]);
    }
}

/// `Put`s of distinct keys are all kept: after `n` of them the store holds
/// `n` keys, each with the value of its `Put`.
pub proof fn lemma_distinct_puts_all_kept(rs: Seq<RecordView>)
    requires
        forall|i: int| 0 <= i < rs.len() ==> #[trigger] rs[i] is Put,
        forall|i: int, j: int|
            0 <= i < j < rs.len() ==> #[trigger] record_key(rs[i]) != #[trigger] record_key(rs[j]),
    ensures
        replay_log(rs).dom().finite(),
        replay_log(rs).dom().len() == rs.len(),
        forall|i: int|
            0 <= i < rs.len() ==> #[trigger] replay_log(rs).contains_key(record_key(rs[i]))
                && rs[i] == (RecordView::Put {
                key: record_key(rs[i]),
                value: replay_log(rs)[record_key(rs[i])],
            }),
    decreases rs.len(),
{
    if rs.len() > 0 {
        let prev = rs.drop_last();
        assert forall|i: int, j: int| 0 <= i < j < prev.len() implies #[trigger] record_key(prev[i])
            != #[trigger] record_key(prev[j]) by {
            assert(prev[i] == rs[i] && prev[j] == rs[j]);
        }
        assert forall|i: int| 0 <= i < prev.len() implies #[trigger] prev[i] is Put by {
            assert(prev[i] == rs[i]);
        }
        lemma_distinct_puts_all_kept(prev);
        let n = rs.len() - 1;
        let k = record_key(rs[n]);
        assert(rs.last() == rs[n]);
        assert(!replay_log(prev).contains_key(k)) by {
            if replay_log(prev).contains_key(k) {
                lemma_values_come_from_log(prev, k);
                let i = choose|i: int|
                    0 <= i < prev.len() && #[trigger] prev[i] == (RecordView::Put {
                        key: k,
                        value: replay_log(prev)[k],
                    });
                assert(rs[i] == prev[i]);
                assert(record_key(rs[i]) != record_key(rs[n]));
            }
        }
        assert forall|i: int| 0 <= i < rs.len() implies #[trigger] replay_log(rs).contains_key(
            record_key(rs[i]),
        ) && rs[i] == (RecordView::Put {
            key: record_key(rs[i]),
            value: replay_log(rs)[record_key(rs[i])],
        }) by {
            if i < n {
                assert(rs[i] == prev[i]);
                assert(record_key(rs[i]) != k);
            }
        }
    }
}

/// Segment ids ascend, and every live pointer points into the active segment
/// or one below it.
pub proof fn lemma_segment_order(s: &StoreState)
    requires
        s.wf(),
    ensures
        strictly_ascending(s.segment_ids()),
        forall|k: Seq<char>|
            #[trigger] s.pointers().contains_key(k) ==> s.is_open() && s.pointers()[k].file_id
                <= s.spec_active_id(),
{
    assert forall|k: Seq<char>| #[trigger] s.pointers().contains_key(k) implies s.is_open()
        && s.pointers()[k].file_id <= s.spec_active_id() by {
        assert(s.records@.contains_key(s.index@[k]));
    }
}

/// The live bytes are the sum of the lengths of the live pointers, one per
/// live key; the dead bytes are what the segments hold beyond them.
pub proof fn lemma_live_bytes(s: &StoreState)
    requires
        s.wf(),
    ensures
        s.pointers().dom().finite(),
        s.pointers().dom().len() == s.key_count(),
        s.live_pointers().len() == s.key_count(),
        forall|j: int|
            0 <= j < s.key_count() ==> #[trigger] s.pointers().contains_key(s.key_at(j))
                && s.live_pointers()[j] == s.pointers()[s.key_at(j)] && s.slot_of(s.key_at(j)) == j,
        forall|k: Seq<char>|
            #[trigger] s.pointers().contains_key(k) ==> 0 <= s.slot_of(k) < s.key_count() && s.key_at(
                s.slot_of(k),
            ) == k,
        s.live_bytes() == pointer_total(s.live_pointers()),
        s.live_bytes() >= 0,
        s.spec_dead_bytes() <= s.spec_total_bytes(),
        s.spec_total_bytes() == s.live_bytes() + s.spec_dead_bytes(),
{
    s.index.lemma_live_bytes();
}

/// Applies each record of `rs` in turn to the store `m`: what a run of
/// successful `set` and `remove` calls does to a store's contents.
pub open spec fn apply_records(m: Map<Seq<char>, Seq<char>>, rs: Seq<RecordView>) -> Map<
    Seq<char>,
    Seq<char>,
>
    decreases rs.len(),
{
    if rs.len() == 0 {
        m
    } else {
        apply_record(apply_records(m, rs.drop_last()), rs.last())
    }
}

/// The last record about a key decides it: after a `Put` of `k`, followed
/// only by records about other keys, `k` has the value of that `Put`; after a
/// `Rm` of `k` so followed, `k` is absent.
pub proof fn lemma_last_write_wins(m: Map<Seq<char>, Seq<char>>, rs: Seq<RecordView>, i: int, k: Seq<char>)
    requires
        0 <= i < rs.len(),
        record_key(rs[i]) == k,
        forall|j: int| i < j < rs.len() ==> record_key(#[trigger] rs[j]) != k,
    ensures
        rs[i] matches RecordView::Put { value, .. } ==> apply_records(m, rs).contains_key(k)
            && apply_records(m, rs)[k] == value,
        rs[i] is Rm ==> !apply_records(m, rs).contains_key(k),
    decreases rs.len(),
{
    if i < rs.len() - 1 {
        let prev = rs.drop_last();
        assert forall|j: int| i < j < prev.len() implies record_key(#[trigger] prev[j]) != k by {
            assert(prev[j] == rs[j]);
        }
        lemma_last_write_wins(m, prev, i, k);
        assert(record_key(rs[rs.len() - 1]) != k);
    }
}

} // verus!
