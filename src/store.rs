//! The log-structured store: which record goes where in which generation, the
//! index over it, replay on open, and compaction.
//!
//! The store decides; the caller moves the bytes. Every write is appended to
//! the newest generation at the offset that `write_position` gives, and the
//! store is told its encoded length. A model of every generation (its records,
//! their offsets and lengths) is kept as ghost state, and what the store
//! holds is defined as the replay of that model.
use vstd::prelude::*;
use crate::error::KvError;
use crate::index::{CommandPos, KeyIndex, lists_exactly};

verus! {

/// Stale bytes above which a compaction is due.
pub const COMPACTION_THRESHOLD: u64 = 1024 * 1024;

/// A command as it is written to the log.
#[derive(Debug)]
pub enum Command {
    /// Bind a key (first) to a value (second).
    Put(String, String),
    /// Remove the binding of a key.
    Rm(String),
}

/// The meaning of a command, over the views of its strings.
pub enum Record {
    /// The key (first) is bound to the value (second).
    Put(Seq<char>, Seq<char>),
    /// The key is unbound.
    Rm(Seq<char>),
}

impl Command {
    /// What the command means.
    pub open spec fn record(&self) -> Record {
        match self {
            Command::Put(k, v) => Record::Put(k@, v@),
            Command::Rm(k) => Record::Rm(k@),
        }
    }
}

/// One record as it lies in a generation.
pub struct LogEntry {
    pub gen: u64,
    pub pos: u64,
    pub len: u64,
    pub rec: Record,
}

impl LogEntry {
    /// Where the record lies.
    pub open spec fn place(&self) -> CommandPos {
        CommandPos { gen: self.gen, pos: self.pos, len: self.len }
    }
}

/// All records of the log, generation after generation.
pub open spec fn flat(log: Seq<Seq<LogEntry>>) -> Seq<LogEntry>
    decreases log.len(),
{
    if log.len() == 0 {
        Seq::empty()
    } else {
        flat(log.drop_last()) + log.last()
    }
}

/// What one record does to the bindings.
pub open spec fn apply(m: Map<Seq<char>, Seq<char>>, r: Record) -> Map<Seq<char>, Seq<char>> {
    match r {
        Record::Put(k, v) => m.insert(k, v),
        Record::Rm(k) => m.remove(k),
    }
}

/// The bindings that replaying the records in order produces.
pub open spec fn contents(es: Seq<LogEntry>) -> Map<Seq<char>, Seq<char>>
    decreases es.len(),
{
    if es.len() == 0 {
        Map::empty()
    } else {
        apply(contents(es.drop_last()), es.last().rec)
    }
}

/// Where, after replaying the records in order, the latest `Put` of each bound key lies.
pub open spec fn positions(es: Seq<LogEntry>) -> Map<Seq<char>, CommandPos>
    decreases es.len(),
{
    if es.len() == 0 {
        Map::empty()
    } else {
        let m = positions(es.drop_last());
        let e = es.last();
        match e.rec {
            Record::Put(k, _) => m.insert(k, e.place()),
            Record::Rm(k) => m.remove(k),
        }
    }
}

/// The bytes that the records of one generation take, laid end to end from offset 0.
pub open spec fn gen_size(es: Seq<LogEntry>) -> nat {
    if es.len() == 0 {
        0
    } else {
        (es.last().pos + es.last().len) as nat
    }
}

/// The bytes that all generations of the log take.
pub open spec fn total_size(log: Seq<Seq<LogEntry>>) -> nat
    decreases log.len(),
{
    if log.len() == 0 {
        0
    } else {
        total_size(log.drop_last()) + gen_size(log.last())
    }
}

/// The records of a generation carry its number and lie end to end from offset 0.
pub open spec fn gen_laid_out(es: Seq<LogEntry>, gen: u64) -> bool {
    &&& forall|j: int| 0 <= j < es.len() ==> (#[trigger] es[j]).gen == gen && es[j].len > 0
    &&& es.len() > 0 ==> es[0].pos == 0
    &&& forall|j: int| 0 <= j < es.len() - 1 ==> #[trigger] es[j + 1].pos == es[j].pos + es[j].len
    &&& gen_size(es) <= u64::MAX
}

/// The sum of the lengths of the positions listed.
pub open spec fn sum_lens(ps: Seq<CommandPos>) -> nat
    decreases ps.len(),
{
    if ps.len() == 0 {
        0
    } else {
        sum_lens(ps.drop_last()) + ps.last().len as nat
    }
}

/// Appending a record to the last generation appends it to the flattened log.
pub proof fn lemma_flat_append_last(log: Seq<Seq<LogEntry>>, e: LogEntry)
    requires
        log.len() > 0,
    ensures
        flat(log.update(log.len() - 1, log.last().push(e))) == flat(log).push(e),
{
    let log2 = log.update(log.len() - 1, log.last().push(e));
    assert(log2.drop_last() =~= log.drop_last());
    assert(flat(log2) =~= flat(log).push(e));
}

/// Opening an empty generation leaves the flattened log as it was.
pub proof fn lemma_flat_push_empty(log: Seq<Seq<LogEntry>>)
    ensures
        flat(log.push(Seq::empty())) == flat(log),
{
    assert(log.push(Seq::empty()).drop_last() =~= log);
    assert(flat(log.push(Seq::empty())) =~= flat(log));
}

/// Every record of a flattened log lies in one of its generations.
pub proof fn lemma_flat_lens(log: Seq<Seq<LogEntry>>)
    requires
        forall|i: int, j: int| 0 <= i < log.len() && 0 <= j < log[i].len() ==> #[trigger] log[i][j].len > 0,
    ensures
        forall|j: int| 0 <= j < flat(log).len() ==> #[trigger] flat(log)[j].len > 0,
    decreases log.len(),
{
    if log.len() > 0 {
        let pre = log.drop_last();
        assert forall|i: int, j: int| 0 <= i < pre.len() && 0 <= j < pre[i].len() implies #[trigger] pre[i][j].len > 0 by {
            assert(pre[i] == log[i]);
        }
        lemma_flat_lens(pre);
        assert forall|j: int| 0 <= j < flat(log).len() implies #[trigger] flat(log)[j].len > 0 by {
            if j >= flat(pre).len() {
                assert(flat(log)[j] == log[log.len() - 1][j - flat(pre).len()]);
            } else {
                assert(flat(log)[j] == flat(pre)[j]);
            }
        }
    }
}

/// The index and the bindings agree: a key has a position exactly when it is
/// bound, and that position holds the `Put` of its current value.
pub proof fn lemma_positions_hold(es: Seq<LogEntry>)
    ensures
        forall|k: Seq<char>| #[trigger] positions(es).contains_key(k) == contents(es).contains_key(k),
        forall|k: Seq<char>| #[trigger] positions(es).contains_key(k) ==> exists|j: int|
            0 <= j < es.len() && #[trigger] es[j].place() == positions(es)[k] && es[j].rec
                == Record::Put(k, contents(es)[k]),
    decreases es.len(),
{
    if es.len() > 0 {
        let pre = es.drop_last();
        let e = es.last();
        let n = es.len() - 1;
        lemma_positions_hold(pre);
        assert forall|k: Seq<char>| #[trigger] positions(es).contains_key(k) implies exists|j: int|
            0 <= j < es.len() && #[trigger] es[j].place() == positions(es)[k] && es[j].rec
                == Record::Put(k, contents(es)[k]) by {
            let same = match e.rec {
                Record::Put(k2, _) => k2 != k,
                Record::Rm(k2) => k2 != k,
            };
            if same {
                let j = choose|j: int|
                    0 <= j < pre.len() && #[trigger] pre[j].place() == positions(pre)[k] && pre[j].rec
                        == Record::Put(k, contents(pre)[k]);
                assert(es[j] == pre[j]);
                assert(es[j].place() == positions(es)[k]);
            } else {
                assert(es[n] == e);
                assert(es[n].place() == positions(es)[k]);
            }
        }
    }
}

/// The end of records laid out from offset 0 is the sum of their lengths.
pub proof fn lemma_laid_out_size(ps: Seq<CommandPos>)
    requires
        ps.len() > 0 ==> ps[0].pos == 0,
        forall|j: int| 0 <= j < ps.len() - 1 ==> #[trigger] ps[j + 1].pos == ps[j].pos + ps[j].len,
    ensures
        ps.len() > 0 ==> ps.last().pos + ps.last().len == sum_lens(ps),
    decreases ps.len(),
{
    if ps.len() > 1 {
        let pre = ps.drop_last();
        assert forall|j: int| 0 <= j < pre.len() - 1 implies #[trigger] pre[j + 1].pos == pre[j].pos + pre[j].len by {
            assert(pre[j + 1] == ps[j + 1]);
            assert(pre[j] == ps[j]);
        }
        lemma_laid_out_size(pre);
        assert(ps[ps.len() - 2 + 1].pos == ps[ps.len() - 2].pos + ps[ps.len() - 2].len);
        assert(pre.last() == ps[ps.len() - 2]);
        assert(sum_lens(ps) == sum_lens(pre) + ps.last().len);
    } else if ps.len() == 1 {
        assert(ps.drop_last().len() == 0);
        assert(sum_lens(ps) == sum_lens(ps.drop_last()) + ps.last().len);
    }
}

/// Two lists of positions whose lengths agree one by one have the same total length.
pub proof fn lemma_sum_lens_eq(a: Seq<CommandPos>, b: Seq<CommandPos>)
    requires
        a.len() == b.len(),
        forall|i: int| 0 <= i < a.len() ==> #[trigger] a[i].len == b[i].len,
    ensures
        sum_lens(a) == sum_lens(b),
    decreases a.len(),
{
    if a.len() > 0 {
        lemma_sum_lens_eq(a.drop_last(), b.drop_last());
    }
}

/// A prefix of a list of positions is no longer in total than the list.
pub proof fn lemma_sum_lens_prefix(ps: Seq<CommandPos>, k: int)
    requires
        0 <= k <= ps.len(),
    ensures
        sum_lens(ps.take(k)) <= sum_lens(ps),
    decreases ps.len() - k,
{
    if k < ps.len() {
        lemma_sum_lens_prefix(ps, k + 1);
        assert(ps.take(k + 1).drop_last() =~= ps.take(k));
    } else {
        assert(ps.take(k) =~= ps);
    }
}

/// The total length of the positions in a listing of bindings.
pub open spec fn listed_bytes(ls: Seq<(String, CommandPos)>) -> nat {
    sum_lens(ls.map_values(|p: (String, CommandPos)| p.1))
}

/// `a + b`, or `u64::MAX` where the sum does not fit.
pub open spec fn sat_add(a: u64, b: u64) -> u64 {
    if a + b > u64::MAX {
        u64::MAX
    } else {
        (a + b) as u64
    }
}

fn saturating_sum(a: u64, b: u64) -> (r: u64)
    ensures
        r == sat_add(a, b),
{
    if a > u64::MAX - b {
        u64::MAX
    } else {
        a + b
    }
}

/// The bytes that a displaced position frees.
pub open spec fn freed(p: Option<CommandPos>) -> u64 {
    match p {
        Some(q) => q.len,
        None => 0,
    }
}

/// The store: its generations, the index over them, and the stale-bytes counter.
pub struct KvStore {
    index: KeyIndex,
    gens: Vec<u64>,
    current_len: u64,
    stale_bytes: u64,
    log: Ghost<Seq<Seq<LogEntry>>>,
}

/// One live record to copy during a compaction.
pub struct Move {
    pub key: String,
    pub from: CommandPos,
    pub to: CommandPos,
}

/// The work of one compaction: the generation it writes, the records it copies
/// there, and the generations it makes obsolete.
pub struct CompactionPlan {
    pub gen: u64,
    pub moves: Vec<Move>,
    pub obsolete: Vec<u64>,
}

impl CompactionPlan {
    /// Where each live record goes.
    pub open spec fn targets(&self) -> Seq<CommandPos> {
        self.moves@.map_values(|m: Move| m.to)
    }

    /// Where each live record is now.
    pub open spec fn sources(&self) -> Seq<CommandPos> {
        self.moves@.map_values(|m: Move| m.from)
    }

    /// Each key with the position it is now bound to.
    pub open spec fn listing(&self) -> Seq<(String, CommandPos)> {
        self.moves@.map_values(|m: Move| (m.key, m.from))
    }
}

impl KvStore {
    /// The generations, ascending; the last one takes new writes.
    pub closed spec fn generations(&self) -> Seq<u64> {
        self.gens@
    }

    /// The records of each generation.
    pub closed spec fn log(&self) -> Seq<Seq<LogEntry>> {
        self.log@
    }

    /// Every record of the store, in the order of replay.
    pub open spec fn records(&self) -> Seq<LogEntry> {
        flat(self.log())
    }

    /// The bindings that the store holds.
    pub open spec fn kv(&self) -> Map<Seq<char>, Seq<char>> {
        contents(self.records())
    }

    /// The counter of bytes displaced since open or since the last compaction.
    pub closed spec fn stale(&self) -> u64 {
        self.stale_bytes
    }

    /// The index of the store.
    pub closed spec fn index_view(&self) -> Map<Seq<char>, CommandPos> {
        self.index@
    }

    /// The record at `p` in the log is `r`.
    pub open spec fn holds(&self, p: CommandPos, r: Record) -> bool {
        exists|j: int| 0 <= j < self.records().len() && #[trigger] self.records()[j].place() == p
            && self.records()[j].rec == r
    }

    /// The internal consistency of the store.
    pub closed spec fn wf(&self) -> bool {
        &&& self.index.wf()
        &&& self.index@ == positions(flat(self.log@))
        &&& self.gens@.len() == self.log@.len()
        &&& forall|i: int, j: int| 0 <= i < j < self.gens@.len() ==> self.gens@[i] < self.gens@[j]
        &&& forall|i: int| 0 <= i < self.gens@.len() ==> #[trigger] self.gens@[i] >= 1
        &&& forall|i: int| 0 <= i < self.log@.len() ==> gen_laid_out(#[trigger] self.log@[i], self.gens@[i])
        &&& self.log@.len() > 0 ==> self.current_len == gen_size(self.log@.last())
        &&& self.log@.len() == 0 ==> self.current_len == 0
    }

    /// A store with no generation yet: replay starts here.
    pub fn new() -> (r: KvStore)
        ensures
            r.wf(),
            r.generations() == Seq::<u64>::empty(),
            r.log() == Seq::<Seq<LogEntry>>::empty(),
            r.kv() == Map::<Seq<char>, Seq<char>>::empty(),
            r.stale() == 0,
            r.write_offset() == 0,
    {
        let r = KvStore {
            index: KeyIndex::new(),
            gens: Vec::new(),
            current_len: 0,
            stale_bytes: 0,
            log: Ghost(Seq::empty()),
        };
        proof {
            assert(positions(flat(r.log@)) =~= Map::empty());
        }
        r
    }

    /// The stale-bytes counter: bytes displaced since open or since the last compaction.
    pub fn stale_bytes(&self) -> (r: u64)
        ensures
            r == self.stale(),
    {
        self.stale_bytes
    }

    /// The offset at which the next record of the newest generation goes.
    pub closed spec fn write_offset(&self) -> u64 {
        self.current_len
    }

    /// The entry that a record written now, of `len` bytes, becomes.
    pub open spec fn next_entry(&self, rec: Record, len: u64) -> LogEntry {
        LogEntry { gen: self.generations().last(), pos: self.write_offset(), len, rec }
    }

    /// Whether the record of `len` bytes fits in the newest generation.
    pub open spec fn can_append(&self, len: u64) -> bool {
        &&& self.generations().len() > 0
        &&& len > 0
        &&& self.write_offset() + len <= u64::MAX
    }

    /// Where the next record goes: the newest generation and the offset in it.
    pub fn write_position(&self) -> (r: Option<(u64, u64)>)
        requires
            self.wf(),
        ensures
            r == (if self.generations().len() > 0 {
                Some((self.generations().last(), self.write_offset()))
            } else {
                None::<(u64, u64)>
            }),
    {
        if self.gens.len() == 0 {
            None
        } else {
            Some((self.gens[self.gens.len() - 1], self.current_len))
        }
    }

    /// The number that the next new generation takes: one past the newest, or 1.
    pub fn next_generation(&self) -> (r: Result<u64, KvError>)
        requires
            self.wf(),
        ensures
            self.generations().len() == 0 ==> r == Ok::<u64, KvError>(1),
            self.generations().len() > 0 && self.generations().last() < u64::MAX ==> r == Ok::<
                u64,
                KvError,
            >((self.generations().last() + 1) as u64),
            self.generations().len() > 0 && self.generations().last() == u64::MAX ==> r
                is Err && r->Err_0 is InternalError,
    {
        if self.gens.len() == 0 {
            Ok(1)
        } else {
            let last = self.gens[self.gens.len() - 1];
            if last == u64::MAX {
                Err(KvError::InternalError)
            } else {
                Ok(last + 1)
            }
        }
    }

    /// Starts generation `gen`, empty, as the newest: for each file in replay,
    /// and for the file that takes new writes.
    pub fn open_generation(&mut self, gen: u64) -> (r: Result<(), KvError>)
        requires
            old(self).wf(),
        ensures
            final(self).wf(),
            final(self).stale() == old(self).stale(),
            final(self).kv() == old(self).kv(),
            final(self).records() == old(self).records(),
            (gen == 0 || (old(self).generations().len() > 0 && gen <= old(self).generations().last()))
                <==> r is Err,
            r is Err ==> r->Err_0 is InternalError && final(self).generations() == old(self).generations()
                && final(self).log() == old(self).log(),
            r is Ok ==> final(self).generations() == old(self).generations().push(gen) && final(self).log()
                == old(self).log().push(Seq::empty()) && final(self).write_offset() == 0,
            r is Err ==> final(self).write_offset() == old(self).write_offset(),
    {
        if gen == 0 || (self.gens.len() > 0 && gen <= self.gens[self.gens.len() - 1]) {
            return Err(KvError::InternalError);
        }
        let ghost old_log = self.log@;
        self.gens.push(gen);
        self.log = Ghost(old_log.push(Seq::empty()));
        self.current_len = 0;
        proof {
            lemma_flat_push_empty(old_log);
            assert forall|i: int| 0 <= i < self.log@.len() implies gen_laid_out(#[trigger] self.log@[i], self.gens@[i]) by {
                if i < old_log.len() {
                    assert(self.log@[i] == old_log[i]);
                }
            }
        }
        Ok(())
    }

    /// Appends the record of `cmd`, `len` bytes long, to the newest generation
    /// and brings the index and the stale-bytes counter up to date.
    fn append(&mut self, cmd: Command, len: u64) -> (displaced: Option<CommandPos>)
        requires
            old(self).wf(),
            old(self).can_append(len),
        ensures
            final(self).wf(),
            final(self).generations() == old(self).generations(),
            final(self).records() == old(self).records().push(old(self).next_entry(cmd.record(), len)),
            final(self).kv() == apply(old(self).kv(), cmd.record()),
            displaced == (match cmd.record() {
                Record::Put(k, _) => old(self).index_view().get(k),
                Record::Rm(k) => old(self).index_view().get(k),
            }),
            final(self).stale() == sat_add(old(self).stale(), freed(displaced)),
            final(self).write_offset() == old(self).write_offset() + len,
    {
        let ghost old_log = self.log@;
        let ghost rec = cmd.record();
        let last = self.gens.len() - 1;
        let gen = self.gens[last];
        let place = CommandPos { gen, pos: self.current_len, len };
        let ghost e = LogEntry { gen, pos: self.current_len, len, rec };
        let displaced = match cmd {
            Command::Put(k, _) => self.index.insert(k, place),
            Command::Rm(k) => self.index.remove(&k),
        };
        self.stale_bytes = saturating_sum(self.stale_bytes, match displaced {
            Some(p) => p.len,
            None => 0,
        });
        self.current_len = self.current_len + len;
        self.log = Ghost(old_log.update(last as int, old_log.last().push(e)));
        proof {
            lemma_flat_append_last(old_log, e);
            let f = flat(self.log@);
            assert(f.drop_last() =~= flat(old_log));
            assert(f.last() == e);
            assert(e.place() == place);
            let es = old_log.last();
            let es2 = es.push(e);
            assert(self.log@[last as int] == es2);
            assert(gen_laid_out(es, gen)) by {
                assert(old_log[last as int] == es);
            }
            assert(gen_laid_out(es2, gen)) by {
                assert forall|j: int| 0 <= j < es2.len() - 1 implies #[trigger] es2[j + 1].pos == es2[j].pos + es2[j].len by {
                    if j + 1 < es.len() {
                        assert(es2[j + 1] == es[j + 1]);
                        assert(es2[j] == es[j]);
                    }
                }
            }
            assert forall|i: int| 0 <= i < self.log@.len() implies gen_laid_out(#[trigger] self.log@[i], self.gens@[i]) by {
                if i != last {
                    assert(self.log@[i] == old_log[i]);
                }
            }
            assert(self.index@ =~= positions(f));
        }
        displaced
    }

    /// Replays one record read back from the newest generation: `cmd` was
    /// decoded from the bytes `[start, end)` of that file.
    pub fn replay(&mut self, cmd: Command, start: u64, end: u64) -> (r: Result<(), KvError>)
        requires
            old(self).wf(),
        ensures
            final(self).wf(),
            final(self).generations() == old(self).generations(),
            r is Ok <==> (old(self).generations().len() > 0 && start == old(self).write_offset() && start < end),
            r is Err ==> r->Err_0 is InternalError && final(self).log() == old(self).log()
                && final(self).stale() == old(self).stale() && final(self).write_offset() == old(self).write_offset(),
            r is Ok ==> {
                &&& final(self).write_offset() == end
                &&& final(self).records() == old(self).records().push(
                    old(self).next_entry(cmd.record(), (end - start) as u64),
                )
                &&& final(self).kv() == apply(old(self).kv(), cmd.record())
                &&& final(self).stale() == sat_add(
                    old(self).stale(),
                    freed(
                        match cmd.record() {
                            Record::Put(k, _) => old(self).index_view().get(k),
                            Record::Rm(k) => old(self).index_view().get(k),
                        },
                    ),
                )
            },
    {
        if self.gens.len() == 0 || start != self.current_len || start >= end {
            return Err(KvError::InternalError);
        }
        self.append(cmd, end - start);
        Ok(())
    }

    /// Records that `Put(key, value)`, `len` bytes long, was written at
    /// `write_position`. Returns whether a compaction is now due.
    pub fn set(&mut self, key: String, value: String, len: u64) -> (r: Result<bool, KvError>)
        requires
            old(self).wf(),
        ensures
            final(self).wf(),
            final(self).generations() == old(self).generations(),
            r is Ok <==> old(self).can_append(len),
            r is Err ==> r->Err_0 is InternalError && final(self).log() == old(self).log()
                && final(self).stale() == old(self).stale() && final(self).write_offset() == old(self).write_offset(),
            r is Ok ==> {
                &&& final(self).write_offset() == old(self).write_offset() + len
                &&& final(self).records() == old(self).records().push(
                    old(self).next_entry(Record::Put(key@, value@), len),
                )
                &&& final(self).kv() == old(self).kv().insert(key@, value@)
                &&& final(self).stale() == sat_add(old(self).stale(), freed(old(self).index_view().get(key@)))
                &&& r->Ok_0 == (final(self).stale() > COMPACTION_THRESHOLD)
            },
    {
        if self.gens.len() == 0 || len == 0 || self.current_len > u64::MAX - len {
            return Err(KvError::InternalError);
        }
        self.append(Command::Put(key, value), len);
        Ok(self.stale_bytes > COMPACTION_THRESHOLD)
    }

    /// Records that `Rm(key)`, `len` bytes long, was written at
    /// `write_position`. Returns whether a compaction is now due; a key that
    /// is not bound is `KeyNotFound`, and nothing changes.
    pub fn remove(&mut self, key: String, len: u64) -> (r: Result<bool, KvError>)
        requires
            old(self).wf(),
        ensures
            final(self).wf(),
            final(self).generations() == old(self).generations(),
            !old(self).kv().contains_key(key@) <==> (r is Err && r->Err_0 is KeyNotFound),
            r is Ok <==> old(self).kv().contains_key(key@) && old(self).can_append(len),
            r is Err ==> final(self).log() == old(self).log() && final(self).stale() == old(self).stale()
                && final(self).write_offset() == old(self).write_offset(),
            r is Ok ==> {
                &&& final(self).write_offset() == old(self).write_offset() + len
                &&& final(self).records() == old(self).records().push(old(self).next_entry(Record::Rm(key@), len))
                &&& final(self).kv() == old(self).kv().remove(key@)
                &&& final(self).stale() == sat_add(old(self).stale(), old(self).index_view()[key@].len)
                &&& r->Ok_0 == (final(self).stale() > COMPACTION_THRESHOLD)
            },
    {
        proof {
            lemma_positions_hold(flat(self.log@));
        }
        if self.index.get(&key).is_none() {
            return Err(KvError::KeyNotFound);
        }
        if self.gens.len() == 0 || len == 0 || self.current_len > u64::MAX - len {
            return Err(KvError::InternalError);
        }
        self.append(Command::Rm(key), len);
        Ok(self.stale_bytes > COMPACTION_THRESHOLD)
    }

    /// Where the current value of `key` lies, if the key is bound: the log
    /// holds there the `Put` of that value.
    pub fn get(&self, key: &String) -> (r: Option<CommandPos>)
        requires
            self.wf(),
        ensures
            r is None <==> !self.kv().contains_key(key@),
            r is Some ==> self.holds(r->Some_0, Record::Put(key@, self.kv()[key@])),
    {
        proof {
            lemma_positions_hold(flat(self.log@));
        }
        let r = self.index.get(key);
        proof {
            if r is Some {
                let j = choose|j: int|
                    0 <= j < self.records().len() && #[trigger] self.records()[j].place() == positions(self.records())[key@]
                        && self.records()[j].rec == Record::Put(key@, self.kv()[key@]);
                assert(self.records()[j].place() == r->Some_0);
            }
        }
        r
    }

    /// `plan` compacts this store: it copies every live record, each once, end
    /// to end from offset 0 into a generation newer than all, and makes all
    /// present generations obsolete.
    pub open spec fn plan_fits(&self, plan: &CompactionPlan) -> bool {
        &&& self.generations().len() > 0
        &&& plan.gen > self.generations().last()
        &&& plan.obsolete@ == self.generations()
        &&& lists_exactly(plan.listing(), self.index_view())
        &&& plan.moves@.len() > 0 ==> plan.moves@[0].to.pos == 0
        &&& forall|i: int| 0 <= i < plan.moves@.len() ==> (#[trigger] plan.moves@[i]).to.gen == plan.gen
            && plan.moves@[i].to.len == plan.moves@[i].from.len
        &&& forall|i: int| 0 <= i < plan.moves@.len() - 1 ==> #[trigger] plan.moves@[i + 1].to.pos
            == plan.moves@[i].to.pos + plan.moves@[i].to.len
        &&& sum_lens(plan.targets()) <= u64::MAX
    }

    /// The plan of a compaction into the generation after the newest.
    pub fn plan_compaction(&self) -> (r: Result<CompactionPlan, KvError>)
        requires
            self.wf(),
        ensures
            r is Ok ==> self.plan_fits(&r->Ok_0) && r->Ok_0.gen == self.generations().last() + 1,
            r is Err ==> r->Err_0 is InternalError,
            self.generations().len() == 0 || self.generations().last() == u64::MAX ==> r is Err,
            r is Err ==> self.generations().len() == 0 || self.generations().last() == u64::MAX || exists|
                ls: Seq<(String, CommandPos)>,
            | lists_exactly(ls, self.index_view()) && listed_bytes(ls) > u64::MAX,
    {
        if self.gens.len() == 0 {
            return Err(KvError::InternalError);
        }
        let last = self.gens[self.gens.len() - 1];
        if last == u64::MAX {
            return Err(KvError::InternalError);
        }
        let gen = last + 1;
        let entries = self.index.entries();
        let mut moves: Vec<Move> = Vec::new();
        let mut offset: u64 = 0;
        let mut i: usize = 0;
        while i < entries.len()
            invariant
                i <= entries@.len(),
                moves@.len() == i,
                forall|j: int| 0 <= j < i ==> (#[trigger] moves@[j]).key == entries@[j].0 && moves@[j].from
                    == entries@[j].1 && moves@[j].to.gen == gen && moves@[j].to.len == entries@[j].1.len,
                moves@.len() > 0 ==> moves@[0].to.pos == 0,
                forall|j: int| 0 <= j < moves@.len() - 1 ==> #[trigger] moves@[j + 1].to.pos
                    == moves@[j].to.pos + moves@[j].to.len,
                offset == sum_lens(moves@.map_values(|m: Move| m.to)),
                offset == sum_lens(entries@.map_values(|p: (String, CommandPos)| p.1).take(i as int)),
                moves@.len() > 0 ==> offset == moves@.last().to.pos + moves@.last().to.len,
                lists_exactly(entries@, self.index@),
            decreases entries@.len() - i,
        {
            let key = entries[i].0.clone();
            let from = entries[i].1;
            let ghost lens = entries@.map_values(|p: (String, CommandPos)| p.1);
            proof {
                assert(lens.take(i as int + 1).drop_last() =~= lens.take(i as int));
                assert(lens.take(i as int + 1).last() == from);
            }
            if offset > u64::MAX - from.len {
                proof {
                    lemma_sum_lens_prefix(lens, i as int + 1);
                    assert(lists_exactly(entries@, self.index_view()) && listed_bytes(entries@) > u64::MAX);
                }
                return Err(KvError::InternalError);
            }
            let ghost before = moves@;
            moves.push(Move { key, from, to: CommandPos { gen, pos: offset, len: from.len } });
            proof {
                let f = |m: Move| m.to;
                assert(moves@.map_values(f).drop_last() =~= before.map_values(f));
                assert(moves@.map_values(f).last() == moves@.last().to);
            }
            offset = offset + from.len;
            i = i + 1;
        }
        let mut obsolete: Vec<u64> = Vec::new();
        let mut g: usize = 0;
        while g < self.gens.len()
            invariant
                g <= self.gens@.len(),
                obsolete@ == self.gens@.take(g as int),
            decreases self.gens@.len() - g,
        {
            obsolete.push(self.gens[g]);
            g = g + 1;
            proof {
                assert(obsolete@ =~= self.gens@.take(g as int));
            }
        }
        proof {
            assert(obsolete@ =~= self.gens@);
        }
        let plan = CompactionPlan { gen, moves, obsolete };
        proof {
            assert(plan.listing() =~= entries@);
        }
        Ok(plan)
    }

    /// Installs a compaction whose copies the caller has made: the index now
    /// points into the new generation only, which also takes new writes, the
    /// obsolete generations are gone, and the stale-bytes counter is zero.
    pub fn commit_compaction(&mut self, plan: CompactionPlan)
        requires
            old(self).wf(),
            old(self).plan_fits(&plan),
        ensures
            final(self).wf(),
            final(self).kv() == old(self).kv(),
            final(self).generations() == seq![plan.gen],
            final(self).stale() == 0,
            total_size(final(self).log()) == sum_lens(plan.targets()),
            sum_lens(plan.targets()) == sum_lens(plan.sources()),
            final(self).write_offset() == sum_lens(plan.targets()),
    {
        let ghost kv = self.kv();
        let ghost recs = flat(self.log@);
        proof {
            lemma_positions_hold(recs);
            assert forall|i: int, j: int| 0 <= i < self.log@.len() && 0 <= j < self.log@[i].len() implies #[trigger] self.log@[i][j].len
                > 0 by {
                assert(gen_laid_out(self.log@[i], self.gens@[i]));
            }
            lemma_flat_lens(self.log@);
            lemma_sum_lens_eq(plan.targets(), plan.sources());
            lemma_laid_out_size(plan.targets());
        }
        let mut idx = KeyIndex::new();
        let ghost mut cs: Seq<LogEntry> = Seq::empty();
        let n = plan.moves.len();
        let mut i: usize = 0;
        while i < n
            invariant
                n == plan.moves@.len(),
                i <= n,
                idx.wf(),
                idx@ == positions(cs),
                cs.len() == i,
                lists_exactly(plan.listing(), self.index_view()),
                self.index_view() == positions(recs),
                kv == contents(recs),
                forall|k: Seq<char>| #[trigger] positions(recs).contains_key(k) == contents(recs).contains_key(k),
                forall|j: int| 0 <= j < i ==> #[trigger] cs[j] == (LogEntry {
                    gen: plan.moves@[j].to.gen,
                    pos: plan.moves@[j].to.pos,
                    len: plan.moves@[j].to.len,
                    rec: Record::Put(plan.moves@[j].key@, kv[plan.moves@[j].key@]),
                }),
                forall|k: Seq<char>| #[trigger] contents(cs).contains_key(k) <==> exists|j: int|
                    0 <= j < i && #[trigger] plan.moves@[j].key@ == k,
                forall|k: Seq<char>| #[trigger] contents(cs).contains_key(k) ==> contents(cs)[k] == kv[k],
            decreases n - i,
        {
            let m = &plan.moves[i];
            let ghost e = LogEntry { gen: m.to.gen, pos: m.to.pos, len: m.to.len, rec: Record::Put(m.key@, kv[m.key@]) };
            idx.insert(m.key.clone(), m.to);
            let ghost prev = cs;
            proof {
                cs = cs.push(e);
                assert(cs.drop_last() =~= prev);
                assert(e.place() == m.to);
                assert(idx@ =~= positions(cs));
                assert(plan.listing()[i as int] == (m.key, m.from));
                assert forall|k: Seq<char>| #[trigger] contents(cs).contains_key(k) <==> exists|j: int|
                    0 <= j < i + 1 && #[trigger] plan.moves@[j].key@ == k by {
                    if k != m.key@ && contents(cs).contains_key(k) {
                        assert(contents(prev).contains_key(k));
                        let j = choose|j: int| 0 <= j < i && #[trigger] plan.moves@[j].key@ == k;
                        assert(plan.moves@[j].key@ == k);
                    }
                    if k == m.key@ {
                        assert(plan.moves@[i as int].key@ == k);
                    }
                    if exists|j: int| 0 <= j < i + 1 && #[trigger] plan.moves@[j].key@ == k {
                        let j = choose|j: int| 0 <= j < i + 1 && #[trigger] plan.moves@[j].key@ == k;
                        if j < i {
                            assert(contents(prev).contains_key(k));
                        }
                    }
                }
                assert forall|k: Seq<char>| #[trigger] contents(cs).contains_key(k) implies contents(cs)[k] == kv[k] by {
                    if k != m.key@ {
                        assert(contents(prev).contains_key(k));
                    }
                }
                assert forall|j: int| 0 <= j < i + 1 implies #[trigger] cs[j] == (LogEntry {
                    gen: plan.moves@[j].to.gen,
                    pos: plan.moves@[j].to.pos,
                    len: plan.moves@[j].to.len,
                    rec: Record::Put(plan.moves@[j].key@, kv[plan.moves@[j].key@]),
                }) by {
                    if j < i {
                        assert(cs[j] == prev[j]);
                    }
                }
            }
            i = i + 1;
        }
        let ghost targets = plan.targets();
        let size = if n == 0 {
            0
        } else {
            plan.moves[n - 1].to.pos + plan.moves[n - 1].to.len
        };
        let mut gens: Vec<u64> = Vec::new();
        gens.push(plan.gen);
        proof {
            assert forall|k: Seq<char>| contents(cs).contains_key(k) == kv.contains_key(k) by {
                if kv.contains_key(k) {
                    assert(self.index_view().contains_key(k));
                    let j = choose|j: int| 0 <= j < plan.listing().len() && #[trigger] plan.listing()[j].0@ == k;
                    assert(plan.listing()[j].0 == plan.moves@[j].key);
                    assert(plan.moves@[j].key@ == k);
                }
                if contents(cs).contains_key(k) {
                    let j = choose|j: int| 0 <= j < n && #[trigger] plan.moves@[j].key@ == k;
                    assert(plan.listing()[j].0 == plan.moves@[j].key);
                    assert(self.index_view().contains_key(plan.listing()[j].0@));
                }
            }
            assert(contents(cs) =~= kv);
            let log2 = seq![cs];
            assert(log2.drop_last() =~= Seq::<Seq<LogEntry>>::empty());
            assert(log2.last() == cs);
            assert(flat(log2.drop_last()) =~= Seq::<LogEntry>::empty());
            assert(flat(log2) =~= cs);
            assert(total_size(log2) == gen_size(cs)) by {
                assert(total_size(log2.drop_last()) == 0);
            }
            if n > 0 {
                assert(targets.last() == plan.moves@[n - 1].to);
                assert(cs.last() == cs[n - 1]);
            }
            assert forall|j: int| 0 <= j < cs.len() implies (#[trigger] cs[j]).gen == plan.gen && cs[j].len > 0 by {
                assert(plan.listing()[j].0 == plan.moves@[j].key);
                let k = plan.moves@[j].key@;
                assert(self.index_view().contains_key(k) && self.index_view()[k] == plan.moves@[j].from);
                let w = choose|w: int| 0 <= w < recs.len() && #[trigger] recs[w].place() == positions(recs)[k]
                    && recs[w].rec == Record::Put(k, contents(recs)[k]);
                assert(recs[w].len > 0);
            }
            assert forall|j: int| 0 <= j < cs.len() - 1 implies #[trigger] cs[j + 1].pos == cs[j].pos + cs[j].len by {
                assert(plan.moves@[j + 1].to.pos == plan.moves@[j].to.pos + plan.moves@[j].to.len);
            }
            assert(gen_laid_out(cs, plan.gen));
            assert(gens@ =~= seq![plan.gen]);
        }
        self.index = idx;
        self.gens = gens;
        self.current_len = size;
        self.stale_bytes = 0;
        let ghost new_log = seq![cs];
        self.log = Ghost(new_log);
        proof {
            assert(self.gens@[0] == plan.gen);
            assert(self.log@[0] == cs);
        }
    }
}


/// The generations found on disk, in the order of replay: ascending, each once.
pub fn replay_order(found: &Vec<u64>) -> (r: Vec<u64>)
    ensures
        forall|i: int, j: int| 0 <= i < j < r@.len() ==> r@[i] < r@[j],
        forall|x: u64| r@.contains(x) <==> found@.contains(x),
{
    let mut r: Vec<u64> = Vec::new();
    let mut i: usize = 0;
    while i < found.len()
        invariant
            i <= found@.len(),
            forall|a: int, b: int| 0 <= a < b < r@.len() ==> r@[a] < r@[b],
            forall|x: u64| r@.contains(x) <==> found@.take(i as int).contains(x),
        decreases found@.len() - i,
    {
        let x = found[i];
        let mut p: usize = 0;
        while p < r.len() && r[p] < x
            invariant
                p <= r@.len(),
                forall|a: int| 0 <= a < p ==> r@[a] < x,
            decreases r@.len() - p,
        {
            p = p + 1;
        }
        let ghost before = r@;
        if p < r.len() && r[p] == x {
        } else {
            r.insert(p, x);
            proof {
                assert forall|a: int, b: int| 0 <= a < b < r@.len() implies r@[a] < r@[b] by {
                    if b < p {
                        assert(r@[a] == before[a] && r@[b] == before[b]);
                    } else if b == p {
                        assert(r@[a] == before[a]);
                    } else if a < p {
                        assert(r@[a] == before[a] && r@[b] == before[b - 1]);
                        if b - 1 > p {
                            assert(before[p as int] < before[b - 1]);
                        }
                    } else if a == p {
                        assert(r@[b] == before[b - 1]);
                        if b - 1 > p {
                            assert(before[p as int] < before[b - 1]);
                        }
                    } else {
                        assert(r@[a] == before[a - 1] && r@[b] == before[b - 1]);
                    }
                }
            }
        }
        proof {
            assert(found@.take(i as int + 1) =~= found@.take(i as int).push(x));
            assert forall|y: u64| r@.contains(y) <==> found@.take(i as int + 1).contains(y) by {
                let t = found@.take(i as int);
                let t1 = found@.take(i as int + 1);
                if r@.contains(y) && y != x {
                    let a = choose|a: int| 0 <= a < r@.len() && r@[a] == y;
                    if a < p {
                        assert(before[a] == y);
                    } else if r@.len() == before.len() {
                        assert(before[a] == y);
                    } else {
                        assert(a != p);
                        assert(before[a - 1] == y);
                    }
                    assert(before.contains(y));
                    assert(t.contains(y));
                    let b = choose|b: int| 0 <= b < t.len() && t[b] == y;
                    assert(t1[b] == y);
                }
                if t1.contains(y) && y != x {
                    let b = choose|b: int| 0 <= b < t1.len() && t1[b] == y;
                    assert(b < i);
                    assert(t[b] == y);
                }
                if y == x {
                    assert(t1[i as int] == x);
                }
                if found@.take(i as int).contains(y) {
                    assert(before.contains(y));
                    let a = choose|a: int| 0 <= a < before.len() && before[a] == y;
                    if r@.len() == before.len() {
                        assert(r@[a] == y);
                    } else if a < p {
                        assert(r@[a] == y);
                    } else {
                        assert(r@[a + 1] == y);
                    }
                }
                if y == x {
                    if r@.len() == before.len() {
                        assert(r@[p as int] == x);
                    } else {
                        assert(r@[p as int] == x);
                    }
                }
            }
        }
        i = i + 1;
    }
    proof {
        assert(found@.take(found@.len() as int) =~= found@);
    }
    r
}

/// The key that a record is about.
pub open spec fn record_key(r: Record) -> Seq<char> {
    match r {
        Record::Put(k, _) => k,
        Record::Rm(k) => k,
    }
}

/// Last write wins: whatever the interleaving of the writers, a key whose last
/// record is `Put(k, v)` is bound to `v`, and one whose last record is `Rm(k)`,
/// or that has no record at all, is unbound.
pub proof fn law_last_write_wins(es: Seq<LogEntry>, k: Seq<char>)
    ensures
        forall|j: int|
            0 <= j < es.len() && (forall|l: int| j < l < es.len() ==> record_key(#[trigger] es[l].rec) != k)
                ==> match #[trigger] es[j].rec {
                Record::Put(k2, v) => k2 == k ==> contents(es).contains_key(k) && contents(es)[k] == v,
                Record::Rm(k2) => k2 == k ==> !contents(es).contains_key(k),
            },
        (forall|l: int| 0 <= l < es.len() ==> record_key(#[trigger] es[l].rec) != k) ==> !contents(
            es,
        ).contains_key(k),
    decreases es.len(),
{
    if es.len() > 0 {
        let pre = es.drop_last();
        law_last_write_wins(pre, k);
        let n = es.len() - 1;
        assert forall|j: int|
            0 <= j < es.len() && (forall|l: int| j < l < es.len() ==> record_key(#[trigger] es[l].rec) != k)
                implies match #[trigger] es[j].rec {
                Record::Put(k2, v) => k2 == k ==> contents(es).contains_key(k) && contents(es)[k] == v,
                Record::Rm(k2) => k2 == k ==> !contents(es).contains_key(k),
            } by {
            if j < n {
                assert(record_key(es[n].rec) != k);
                assert(es[j] == pre[j]);
                assert forall|l: int| j < l < pre.len() implies record_key(#[trigger] pre[l].rec) != k by {
                    assert(pre[l] == es[l]);
                }
            }
        }
        if forall|l: int| 0 <= l < es.len() ==> record_key(#[trigger] es[l].rec) != k {
            assert(record_key(es[n].rec) != k);
            assert forall|l: int| 0 <= l < pre.len() implies record_key(#[trigger] pre[l].rec) != k by {
                assert(pre[l] == es[l]);
            }
        }
    }
}

/// Read your write: once `set(k, v)` has been recorded, the store binds `k` to
/// `v`, and `get(k)` finds that value.
pub proof fn law_read_your_write(before: KvStore, after: KvStore, k: Seq<char>, v: Seq<char>, len: u64)
    requires
        after.records() == before.records().push(before.next_entry(Record::Put(k, v), len)),
    ensures
        after.kv().contains_key(k),
        after.kv()[k] == v,
{
    assert(after.records().drop_last() =~= before.records());
}

/// Overwrite: after `set(k, v1)` and then `set(k, v2)`, the store binds `k` to `v2`.
pub proof fn law_overwrite(
    s0: KvStore,
    s1: KvStore,
    s2: KvStore,
    k: Seq<char>,
    v1: Seq<char>,
    v2: Seq<char>,
    len1: u64,
    len2: u64,
)
    requires
        s1.records() == s0.records().push(s0.next_entry(Record::Put(k, v1), len1)),
        s2.records() == s1.records().push(s1.next_entry(Record::Put(k, v2), len2)),
    ensures
        s2.kv().contains_key(k),
        s2.kv()[k] == v2,
{
    law_read_your_write(s1, s2, k, v2, len2);
}

/// Delete: after `set(k, v)` and then `remove(k)`, the key is unbound.
pub proof fn law_delete(s0: KvStore, s1: KvStore, s2: KvStore, k: Seq<char>, v: Seq<char>, len1: u64, len2: u64)
    requires
        s1.records() == s0.records().push(s0.next_entry(Record::Put(k, v), len1)),
        s2.records() == s1.records().push(s1.next_entry(Record::Rm(k), len2)),
    ensures
        !s2.kv().contains_key(k),
{
    assert(s2.records().drop_last() =~= s1.records());
}

/// Durability: a store that has replayed, in order, the records that another
/// store wrote holds the same bindings and the same index, so every
/// successful write is seen again and no removed key is.
pub proof fn law_reopen(written: KvStore, reopened: KvStore)
    requires
        written.wf(),
        reopened.wf(),
        reopened.records() == written.records(),
    ensures
        reopened.kv() == written.kv(),
        reopened.index_view() == written.index_view(),
{
}

} // verus!
