//! Non-determinism capture and replay.
//!
//! Every host-call that would leak real-world non-determinism into a cell is
//! routed through an `EventRecorder`. Its log is keyed by tick and by the
//! ordinal of the call within the tick rather than by wall time, so that
//! replay does not depend on the host.

use std::collections::HashMap;
use vstd::prelude::*;

use crate::clock::Tick;

verus! {

/// The two operating modes of a recorder. A recorder is in one mode for its
/// entire lifetime.
#[derive(Debug, Clone, Copy, PartialEq, Eq, Structural)]
pub enum RecorderMode {
    Record,
    Replay,
}

#[derive(Debug, Clone, Copy, PartialEq, Eq)]
pub enum ReplayError {
    /// No recorded value: the log is truncated or the inputs diverged.
    MissingEntry { tick: Tick, ordinal: u64 },
    /// The recorded value is of another type.
    TypeMismatch { tick: Tick, ordinal: u64 },
}

/// A recorded value.
#[derive(Debug, Clone, PartialEq, Eq)]
pub enum ReplayEntry {
    Clock(u64),
    Random(Vec<u8>),
}

/// What a recorded value holds.
pub enum EntryView {
    Clock(u64),
    Random(Seq<u8>),
}

impl View for ReplayEntry {
    type V = EntryView;

    open spec fn view(&self) -> EntryView {
        match self {
            ReplayEntry::Clock(value) => EntryView::Clock(*value),
            ReplayEntry::Random(bytes) => EntryView::Random(bytes@),
        }
    }
}

impl ReplayEntry {
    /// The same value once more.
    fn duplicate(&self) -> (entry: ReplayEntry)
        ensures
            entry@ == self@,
    {
        match self {
            ReplayEntry::Clock(value) => ReplayEntry::Clock(*value),
            ReplayEntry::Random(bytes) => {
                let copied: Vec<u8> = vstd::slice::slice_to_vec(bytes.as_slice());
                assert(copied@ =~= bytes@);
                ReplayEntry::Random(copied)
            },
        }
    }
}

/// A log: what was recorded for each tick and call ordinal.
pub type Log = Map<(Tick, u64), EntryView>;

/// The log that a list of entries stands for. Of two entries with one key the
/// later one counts.
pub open spec fn log_of(entries: Seq<(Tick, u64, ReplayEntry)>) -> Log
    decreases entries.len(),
{
    if entries.len() == 0 {
        Map::empty()
    } else {
        let last = entries.last();
        log_of(entries.drop_last()).insert((last.0, last.1), last.2@)
    }
}

/// The state of a recorder.
pub struct RecorderView {
    pub mode: RecorderMode,
    pub log: Log,
    /// The tick of the last call.
    pub tick: Tick,
    /// How many calls were made in that tick.
    pub ordinal: u64,
}

impl RecorderView {
    /// A recorder before its first call.
    pub open spec fn start(mode: RecorderMode, log: Log) -> Self {
        RecorderView { mode, log, tick: 0, ordinal: 0 }
    }

    /// The ordinal of the next call, if it is made in `tick`.
    pub open spec fn ordinal_at(self, tick: Tick) -> u64 {
        if tick == self.tick {
            self.ordinal
        } else {
            0
        }
    }

    /// The key of the next call, if it is made in `tick`.
    pub open spec fn key_at(self, tick: Tick) -> (Tick, u64) {
        (tick, self.ordinal_at(tick))
    }

    /// The state after a call in `tick`.
    pub open spec fn advanced(self, tick: Tick) -> Self {
        RecorderView { tick, ordinal: (self.ordinal_at(tick) + 1) as u64, ..self }
    }

    /// The state after a call in `tick` for which `entry` was recorded.
    pub open spec fn recorded(self, tick: Tick, entry: EntryView) -> Self {
        RecorderView {
            log: self.log.insert(self.key_at(tick), entry),
            ..self.advanced(tick)
        }
    }

    /// What the log holds for the next call, if it is made in `tick`.
    pub open spec fn replayed(self, tick: Tick) -> Option<EntryView> {
        if self.log.contains_key(self.key_at(tick)) {
            Some(self.log[self.key_at(tick)])
        } else {
            None
        }
    }

    pub open spec fn missing(self, tick: Tick) -> ReplayError {
        ReplayError::MissingEntry { tick, ordinal: self.ordinal_at(tick) }
    }

    pub open spec fn mismatch(self, tick: Tick) -> ReplayError {
        ReplayError::TypeMismatch { tick, ordinal: self.ordinal_at(tick) }
    }

    /// What the replay of a clock read in `tick` returns.
    pub open spec fn replayed_clock(self, tick: Tick) -> Result<u64, ReplayError> {
        match self.replayed(tick) {
            Some(EntryView::Clock(value)) => Ok(value),
            Some(EntryView::Random(_)) => Err(self.mismatch(tick)),
            None => Err(self.missing(tick)),
        }
    }

    /// What the replay of a draw of `len` random bytes in `tick` returns.
    pub open spec fn replayed_random(self, tick: Tick, len: nat) -> Result<Seq<u8>, ReplayError> {
        match self.replayed(tick) {
            Some(EntryView::Random(bytes)) => if bytes.len() == len {
                Ok(bytes)
            } else {
                Err(self.mismatch(tick))
            },
            Some(EntryView::Clock(_)) => Err(self.mismatch(tick)),
            None => Err(self.missing(tick)),
        }
    }
}

/// The key under which a recorder holds the value of a call.
spec fn packed(key: (Tick, u64)) -> u128 {
    (key.0 * 0x1_0000_0000_0000_0000 + key.1) as u128
}

fn pack_key(tick: Tick, ordinal: u64) -> (key: u128)
    ensures
        key == packed((tick, ordinal)),
{
    tick as u128 * 0x1_0000_0000_0000_0000 + ordinal as u128
}

fn unpack_key(key: u128) -> (pair: (Tick, u64))
    ensures
        packed(pair) == key,
{
    let tick: u64 = (key / 0x1_0000_0000_0000_0000) as u64;
    let ordinal: u64 = (key % 0x1_0000_0000_0000_0000) as u64;
    (tick, ordinal)
}

/// The log held in a map by packed keys.
spec fn unpacked(log: Map<u128, ReplayEntry>) -> Log {
    Map::new(
        |key: (Tick, u64)| log.contains_key(packed(key)),
        |key: (Tick, u64)| log[packed(key)]@,
    )
}

proof fn lemma_packed_is_injective(a: (Tick, u64), b: (Tick, u64))
    requires
        packed(a) == packed(b),
    ensures
        a == b,
{
}

proof fn lemma_unpacked_insert(log: Map<u128, ReplayEntry>, key: (Tick, u64), entry: ReplayEntry)
    ensures
        unpacked(log.insert(packed(key), entry)) == unpacked(log).insert(key, entry@),
{
    let after = unpacked(log.insert(packed(key), entry));
    assert forall|other: (Tick, u64)| #[trigger] packed(other) == packed(key) implies other
        == key by {
        lemma_packed_is_injective(other, key);
    }
    assert(after =~= unpacked(log).insert(key, entry@));
}

/// Per-cell recorder and replayer of non-deterministic host-call results.
pub struct EventRecorder {
    mode: RecorderMode,
    log: HashMap<u128, ReplayEntry>,
    /// The tick of the last call. A call in another tick starts over with
    /// ordinal 0.
    current_tick: Tick,
    current_ordinal: u64,
}

impl View for EventRecorder {
    type V = RecorderView;

    closed spec fn view(&self) -> RecorderView {
        RecorderView {
            mode: self.mode,
            log: unpacked(self.log@),
            tick: self.current_tick,
            ordinal: self.current_ordinal,
        }
    }
}

impl EventRecorder {
    pub fn new(mode: RecorderMode) -> (recorder: Self)
        ensures
            recorder@ == RecorderView::start(mode, Map::empty()),
    {
        broadcast use vstd::std_specs::hash::group_hash_axioms;

        let log: HashMap<u128, ReplayEntry> = HashMap::new();
        assert(unpacked(log@) =~= Map::empty());
        EventRecorder { mode, log, current_tick: 0, current_ordinal: 0 }
    }

    /// A recorder that replays a log captured before.
    pub fn from_replay_log(entries: Vec<(Tick, u64, ReplayEntry)>) -> (recorder: Self)
        ensures
            recorder@ == RecorderView::start(RecorderMode::Replay, log_of(entries@)),
    {
        broadcast use vstd::std_specs::hash::group_hash_axioms;

        let mut log: HashMap<u128, ReplayEntry> = HashMap::new();
        assert(unpacked(log@) =~= Map::empty());
        let mut i: usize = 0;
        while i < entries.len()
            invariant
                i <= entries@.len(),
                unpacked(log@) == log_of(entries@.take(i as int)),
            decreases entries@.len() - i,
        {
            let (tick, ordinal, entry) = &entries[i];
            let value = entry.duplicate();
            proof {
                lemma_unpacked_insert(log@, (*tick, *ordinal), value);
                assert(entries@.take(i + 1).drop_last() =~= entries@.take(i as int));
            }
            log.insert(pack_key(*tick, *ordinal), value);
            i += 1;
        }
        assert(entries@.take(i as int) =~= entries@);
        EventRecorder { mode: RecorderMode::Replay, log, current_tick: 0, current_ordinal: 0 }
    }

    /// Numbers the next call in `tick`.
    fn next_ordinal(&mut self, tick: Tick) -> (ordinal: u64)
        requires
            old(self)@.ordinal_at(tick) < u64::MAX,
        ensures
            ordinal == old(self)@.ordinal_at(tick),
            final(self)@ == old(self)@.advanced(tick),
            final(self).log == old(self).log,
    {
        if tick != self.current_tick {
            self.current_tick = tick;
            self.current_ordinal = 0;
        }
        let ordinal: u64 = self.current_ordinal;
        self.current_ordinal += 1;
        ordinal
    }

    /// The recorded log, each key once, in no particular order. Importing it
    /// with `from_replay_log` gives the same log.
    pub fn export_log(&self) -> (entries: Vec<(Tick, u64, ReplayEntry)>)
        ensures
            log_of(entries@) == self@.log,
            entries@.len() == self@.log.dom().len(),
    {
        broadcast use vstd::std_specs::hash::group_hash_axioms;

        let mut entries: Vec<(Tick, u64, ReplayEntry)> = Vec::new();
        let ghost mut it_keys: Seq<u128> = Seq::empty();
        for key in it: self.log.keys()
            invariant
                it_keys == it.seq().unref().take(it.index() as int),
                it.index() == it.seq().len() ==> it_keys == it.seq().unref(),
                it.seq().unref().to_set() == self.log@.dom(),
                it.seq().unref().no_duplicates(),
                entries@.len() == it_keys.len(),
                forall|j: int|
                    0 <= j < it_keys.len() ==> {
                        &&& packed(entry_key(entries@[j])) == #[trigger] it_keys[j]
                        &&& self.log@.contains_key(it_keys[j])
                        &&& self.log@[it_keys[j]]@ == entries@[j].2@
                    },
        {
            proof {
                assert(it.seq().unref()[it.index()] == *key);
                assert(it.seq().unref().to_set().contains(*key));
                assert(it.seq().unref().take(it.index() + 1) =~= it_keys.push(*key));
                it_keys = it_keys.push(*key);
            }
            if let Some(entry) = self.log.get(key) {
                let (tick, ordinal) = unpack_key(*key);
                entries.push((tick, ordinal, entry.duplicate()));
            }
        }
        proof {
            assert forall|i: int, j: int| 0 <= i < j < entries@.len() implies entry_key(
                #[trigger] entries@[i],
            ) != entry_key(#[trigger] entries@[j]) by {
                assert(it_keys[i] != it_keys[j]);
            }
            lemma_log_of_distinct(entries@);
            assert forall|key: (Tick, u64)|
                log_of(entries@).contains_key(key) == #[trigger] self@.log.contains_key(key) by {
                if self@.log.contains_key(key) {
                    assert(it_keys.to_set().contains(packed(key)));
                    let i = choose|i: int| 0 <= i < it_keys.len() && it_keys[i] == packed(key);
                    lemma_packed_is_injective(key, entry_key(entries@[i]));
                }
                if log_of(entries@).contains_key(key) {
                    let i = choose|i: int|
                        0 <= i < entries@.len() && entry_key(#[trigger] entries@[i]) == key;
                    assert(self.log@.contains_key(it_keys[i]));
                }
            }
            assert forall|key: (Tick, u64)| self@.log.contains_key(key) implies log_of(
                entries@,
            )[key] == #[trigger] self@.log[key] by {
                let i = choose|i: int|
                    0 <= i < entries@.len() && entry_key(#[trigger] entries@[i]) == key;
                assert(self.log@.contains_key(it_keys[i]));
            }
            assert(log_of(entries@) =~= self@.log);
        }
        entries
    }
}

/// The key of an entry.
pub open spec fn entry_key(entry: (Tick, u64, ReplayEntry)) -> (Tick, u64) {
    (entry.0, entry.1)
}

/// Entries with distinct keys stand for a log that holds just them.
proof fn lemma_log_of_distinct(entries: Seq<(Tick, u64, ReplayEntry)>)
    requires
        forall|i: int, j: int|
            0 <= i < j < entries.len() ==> entry_key(#[trigger] entries[i]) != entry_key(
                #[trigger] entries[j],
            ),
    ensures
        log_of(entries).dom().finite(),
        log_of(entries).dom().len() == entries.len(),
        forall|i: int|
            0 <= i < entries.len() ==> log_of(entries).contains_key(
                entry_key(#[trigger] entries[i]),
            ) && log_of(entries)[entry_key(entries[i])] == entries[i].2@,
        forall|key: (Tick, u64)| #[trigger]
            log_of(entries).contains_key(key) ==> exists|i: int|
                0 <= i < entries.len() && entry_key(#[trigger] entries[i]) == key,
    decreases entries.len(),
{
    if entries.len() > 0 {
        let rest = entries.drop_last();
        let last = entries.last();
        lemma_log_of_distinct(rest);
        assert forall|key: (Tick, u64)| #[trigger] log_of(entries).contains_key(key) implies exists|
            i: int,
        | 0 <= i < entries.len() && entry_key(#[trigger] entries[i]) == key by {
            if key == entry_key(last) {
                assert(entries[entries.len() - 1] == last);
            } else {
                assert(log_of(rest).contains_key(key));
                let i = choose|i: int| 0 <= i < rest.len() && entry_key(#[trigger] rest[i]) == key;
                assert(entries[i] == rest[i]);
            }
        }
        if log_of(rest).contains_key(entry_key(last)) {
            let i = choose|i: int|
                0 <= i < rest.len() && entry_key(#[trigger] rest[i]) == entry_key(last);
            assert(entries[i] == rest[i]);
            assert(entries[entries.len() - 1] == last);
        }
        assert(log_of(entries).dom() =~= log_of(rest).dom().insert(entry_key(last)));
        assert forall|i: int| 0 <= i < entries.len() implies log_of(entries).contains_key(
            entry_key(#[trigger] entries[i]),
        ) && log_of(entries)[entry_key(entries[i])] == entries[i].2@ by {
            if i < rest.len() {
                assert(rest[i] == entries[i]);
                assert(entries[entries.len() - 1] == last);
            }
        }
    }
}

/// Host-call surface that the supervisor's trampolines call into. Callers
/// need not know whether values are fetched or replayed.
pub trait NonDeterminismSource {
    /// A call can be made in `tick`.
    open spec fn accepts(&self, tick: Tick) -> bool {
        true
    }

    /// The next call may fetch a real value.
    open spec fn fetches(&self) -> bool {
        true
    }

    fn wall_clock_now<F: FnOnce() -> u64>(&mut self, tick: Tick, real_now_fn: F) -> (now: Result<
        u64,
        ReplayError,
    >)
        requires
            old(self).accepts(tick),
            old(self).fetches() ==> call_requires(real_now_fn, ()),
    ;

    fn random_bytes<F: FnOnce(&mut [u8])>(
        &mut self,
        tick: Tick,
        buf: &mut [u8],
        real_random_fn: F,
    ) -> (filled: Result<(), ReplayError>)
        requires
            old(self).accepts(tick),
            old(self).fetches() ==> forall|b: &mut [u8]|
                (*b)@ == old(buf)@ ==> #[trigger] call_requires(real_random_fn, (b,)),
    ;
}

impl NonDeterminismSource for EventRecorder {
    /// The ordinals of the tick are not used up.
    open spec fn accepts(&self, tick: Tick) -> bool {
        self@.ordinal_at(tick) < u64::MAX
    }

    open spec fn fetches(&self) -> bool {
        self@.mode is Record
    }

    /// When recording, the real time is fetched once, logged and returned.
    /// When replaying, the time in the log is returned and `real_now_fn` is
    /// not called.
    fn wall_clock_now<F: FnOnce() -> u64>(&mut self, tick: Tick, real_now_fn: F) -> (now: Result<
        u64,
        ReplayError,
    >)
        ensures
            old(self)@.mode is Record ==> {
                &&& now is Ok
                &&& call_ensures(real_now_fn, (), now->Ok_0)
                &&& final(self)@ == old(self)@.recorded(tick, EntryView::Clock(now->Ok_0))
            },
            old(self)@.mode is Replay ==> {
                &&& now == old(self)@.replayed_clock(tick)
                &&& final(self)@ == old(self)@.advanced(tick)
            },
    {
        broadcast use vstd::std_specs::hash::group_hash_axioms;

        let ordinal: u64 = self.next_ordinal(tick);
        let key: u128 = pack_key(tick, ordinal);
        match self.mode {
            RecorderMode::Record => {
                let value: u64 = real_now_fn();
                proof {
                    lemma_unpacked_insert(self.log@, (tick, ordinal), ReplayEntry::Clock(value));
                }
                self.log.insert(key, ReplayEntry::Clock(value));
                Ok(value)
            },
            RecorderMode::Replay => match self.log.get(&key) {
                Some(ReplayEntry::Clock(value)) => Ok(*value),
                Some(_) => Err(ReplayError::TypeMismatch { tick, ordinal }),
                None => Err(ReplayError::MissingEntry { tick, ordinal }),
            },
        }
    }

    /// When recording, `buf` is filled with real random bytes, which are
    /// logged. When replaying, it is filled from the log and `real_random_fn`
    /// is not called; an error leaves it as it was.
    fn random_bytes<F: FnOnce(&mut [u8])>(
        &mut self,
        tick: Tick,
        buf: &mut [u8],
        real_random_fn: F,
    ) -> (filled: Result<(), ReplayError>)
        ensures
            old(self)@.mode is Record ==> {
                &&& filled is Ok
                &&& exists|b: &mut [u8]|
                    (*b)@ == old(buf)@ && (*final(b))@ == final(buf)@ && #[trigger] call_ensures(
                        real_random_fn,
                        (b,),
                        (),
                    )
                &&& final(self)@ == old(self)@.recorded(tick, EntryView::Random(final(buf)@))
            },
            old(self)@.mode is Replay ==> {
                &&& final(self)@ == old(self)@.advanced(tick)
                &&& match old(self)@.replayed_random(tick, old(buf)@.len()) {
                    Ok(bytes) => filled is Ok && final(buf)@ == bytes,
                    Err(error) => {
                        &&& filled == Err::<(), ReplayError>(error)
                        &&& final(buf)@ == old(buf)@
                    },
                }
            },
    {
        broadcast use vstd::std_specs::hash::group_hash_axioms;

        let ordinal: u64 = self.next_ordinal(tick);
        let key: u128 = pack_key(tick, ordinal);
        match self.mode {
            RecorderMode::Record => {
                real_random_fn(buf);
                let bytes: Vec<u8> = vstd::slice::slice_to_vec(buf);
                assert(bytes@ =~= buf@);
                let entry = ReplayEntry::Random(bytes);
                proof {
                    lemma_unpacked_insert(self.log@, (tick, ordinal), entry);
                }
                self.log.insert(key, entry);
                Ok(())
            },
            RecorderMode::Replay => match self.log.get(&key) {
                Some(ReplayEntry::Random(bytes)) => {
                    if bytes.len() != buf.len() {
                        return Err(ReplayError::TypeMismatch { tick, ordinal });
                    }
                    copy_into(bytes.as_slice(), buf);
                    Ok(())
                },
                Some(_) => Err(ReplayError::TypeMismatch { tick, ordinal }),
                None => Err(ReplayError::MissingEntry { tick, ordinal }),
            },
        }
    }
}

/// Copies `from` into `to`.
fn copy_into(from: &[u8], to: &mut [u8])
    requires
        from@.len() == old(to)@.len(),
    ensures
        final(to)@ == from@,
{
    let mut i: usize = 0;
    while i < from.len()
        invariant
            i <= from@.len(),
            from@.len() == to@.len(),
            forall|j: int| 0 <= j < i ==> to@[j] == from@[j],
        decreases from@.len() - i,
    {
        to[i] = from[i];
        i += 1;
    }
    assert(to@ =~= from@);
}

/// A call as it was recorded: its tick and the value that was fetched.
pub type Call = (Tick, EntryView);

/// The state of a new recorder after it recorded `calls`.
pub open spec fn recording(calls: Seq<Call>) -> RecorderView
    decreases calls.len(),
{
    if calls.len() == 0 {
        RecorderView::start(RecorderMode::Record, Map::empty())
    } else {
        recording(calls.drop_last()).recorded(calls.last().0, calls.last().1)
    }
}

/// The state of a recorder that replays `log`, after calls in the same ticks.
pub open spec fn replaying(log: Log, calls: Seq<Call>) -> RecorderView
    decreases calls.len(),
{
    if calls.len() == 0 {
        RecorderView::start(RecorderMode::Replay, log)
    } else {
        replaying(log, calls.drop_last()).advanced(calls.last().0)
    }
}

/// The key under which call `i` is recorded.
pub open spec fn call_key(calls: Seq<Call>, i: int) -> (Tick, u64) {
    recording(calls.take(i)).key_at(calls[i].0)
}

/// The log of a run, replayed, gives every call the value that it had when it
/// was recorded.
pub open spec fn replay_reproduces(calls: Seq<Call>) -> bool {
    forall|i: int|
        0 <= i < calls.len() ==> replaying(recording(calls).log, #[trigger] calls.take(i)).replayed(
            calls[i].0,
        ) == Some(calls[i].1)
}

/// The replay of a run is in step with its recording.
proof fn lemma_replay_keeps_step(log: Log, calls: Seq<Call>)
    ensures
        replaying(log, calls).log == log,
        replaying(log, calls).mode is Replay,
        replaying(log, calls).tick == recording(calls).tick,
        replaying(log, calls).ordinal == recording(calls).ordinal,
    decreases calls.len(),
{
    if calls.len() > 0 {
        lemma_replay_keeps_step(log, calls.drop_last());
    }
}

/// Every call has an entry in the log; it is the value of a call with the
/// same key.
proof fn lemma_log_holds_calls(calls: Seq<Call>, i: int)
    requires
        0 <= i < calls.len(),
    ensures
        recording(calls).log.contains_key(call_key(calls, i)),
        exists|j: int|
            i <= j < calls.len() && #[trigger] call_key(calls, j) == call_key(calls, i)
                && recording(calls).log[call_key(calls, i)] == calls[j].1,
    decreases calls.len(),
{
    let rest = calls.drop_last();
    let n = calls.len() - 1;
    assert(calls.take(n) =~= rest);
    assert(calls.take(i) =~= rest.take(i) || i == n);
    if call_key(calls, i) == call_key(calls, n) {
        assert(recording(calls).log[call_key(calls, n)] == calls[n].1);
    } else {
        assert(calls.take(i) =~= rest.take(i));
        lemma_log_holds_calls(rest, i);
        let j = choose|j: int|
            i <= j < rest.len() && #[trigger] call_key(rest, j) == call_key(rest, i)
                && recording(rest).log[call_key(rest, i)] == rest[j].1;
        assert(calls.take(j) =~= rest.take(j));
        assert(call_key(calls, j) == call_key(rest, j));
    }
}

/// Record, then replay: the replay reproduces every value exactly if no two
/// calls with different values were recorded under one key. It does so
/// whatever the host would have answered, since a replay takes nothing but
/// the log.
pub proof fn law_replay_reproduces_recording(calls: Seq<Call>)
    ensures
        replay_reproduces(calls) <==> (forall|i: int, j: int|
            0 <= i < j < calls.len() && #[trigger] call_key(calls, i) == #[trigger] call_key(
                calls,
                j,
            ) ==> calls[i].1 == calls[j].1),
{
    let log = recording(calls).log;
    assert forall|i: int| 0 <= i < calls.len() implies #[trigger] call_key(calls, i) == replaying(
        log,
        calls.take(i),
    ).key_at(calls[i].0) && log.contains_key(call_key(calls, i)) by {
        lemma_replay_keeps_step(log, calls.take(i));
        lemma_log_holds_calls(calls, i);
    }
    assert forall|i: int| 0 <= i < calls.len() implies replaying(
        log,
        #[trigger] calls.take(i),
    ).replayed(calls[i].0) == Some(log[call_key(calls, i)]) by {
        lemma_replay_keeps_step(log, calls.take(i));
        assert(call_key(calls, i) == replaying(log, calls.take(i)).key_at(calls[i].0));
    }
    if replay_reproduces(calls) {
        assert forall|i: int, j: int|
            0 <= i < j < calls.len() && #[trigger] call_key(calls, i) == #[trigger] call_key(
                calls,
                j,
            ) implies calls[i].1 == calls[j].1 by {
            assert(calls.take(i).len() == i);
            assert(calls.take(j).len() == j);
        }
    }
    if forall|i: int, j: int|
        0 <= i < j < calls.len() && #[trigger] call_key(calls, i) == #[trigger] call_key(calls, j)
            ==> calls[i].1 == calls[j].1 {
        assert forall|i: int| 0 <= i < calls.len() implies replaying(
            log,
            #[trigger] calls.take(i),
        ).replayed(calls[i].0) == Some(calls[i].1) by {
            lemma_log_holds_calls(calls, i);
        }
    }
}

/// As long as ticks do not go back, later keys are later: by tick, and by
/// ordinal within a tick.
proof fn lemma_keys_ascend(calls: Seq<Call>, i: int)
    requires
        0 <= i < calls.len() <= u64::MAX,
        forall|a: int, b: int| 0 <= a < b < calls.len() ==> calls[a].0 <= calls[b].0,
    ensures
        ({
            let after = recording(calls);
            let key = call_key(calls, i);
            &&& after.ordinal <= calls.len()
            &&& key.0 < after.tick || key.0 == after.tick && key.1 < after.ordinal
        }),
        recording(calls).tick == calls.last().0,
    decreases calls.len(),
{
    let rest = calls.drop_last();
    let n = calls.len() - 1;
    assert(calls.take(n) =~= rest);
    if n > 0 {
        lemma_keys_ascend(rest, if i < n { i } else { 0 });
        assert(rest.last() == calls[n - 1]);
        assert(calls[n - 1].0 <= calls[n].0);
    }
    if i < n {
        assert(calls.take(i) =~= rest.take(i));
    }
}

/// A run whose ticks never go back, as those of a scheduler never do, records
/// every call under a key of its own, so that its replay reproduces it.
pub proof fn law_run_in_tick_order_replays(calls: Seq<Call>)
    requires
        calls.len() <= u64::MAX,
        forall|i: int, j: int| 0 <= i < j < calls.len() ==> calls[i].0 <= calls[j].0,
    ensures
        forall|i: int, j: int|
            0 <= i < j < calls.len() ==> #[trigger] call_key(calls, i) != #[trigger] call_key(
                calls,
                j,
            ),
        replay_reproduces(calls),
{
    assert forall|i: int, j: int| 0 <= i < j < calls.len() implies #[trigger] call_key(calls, i)
        != #[trigger] call_key(calls, j) by {
        let before = calls.take(j);
        lemma_keys_ascend(before, i);
        assert(before.take(i) =~= calls.take(i));
        assert(before.last() == calls[j - 1]);
        assert(calls[j - 1].0 <= calls[j].0);
    }
    law_replay_reproduces_recording(calls);
}

/// How many of `calls` were made in `tick`.
pub open spec fn calls_in(calls: Seq<Call>, tick: Tick) -> nat
    decreases calls.len(),
{
    if calls.len() == 0 {
        0
    } else {
        calls_in(calls.drop_last(), tick) + (if calls.last().0 == tick {
            1nat
        } else {
            0
        })
    }
}

/// In a run whose ticks never go back, the ordinal of a call that keeps this
/// up is the number of calls made in its tick before, and every key in the log
/// is one of an earlier call.
proof fn lemma_next_key(calls: Seq<Call>, tick: Tick)
    requires
        calls.len() <= u64::MAX,
        forall|i: int, j: int| 0 <= i < j < calls.len() ==> calls[i].0 <= calls[j].0,
        calls.len() > 0 ==> calls.last().0 <= tick,
    ensures
        recording(calls).ordinal_at(tick) == calls_in(calls, tick),
        calls_in(calls, tick) <= calls.len(),
        forall|key: (Tick, u64)| #[trigger]
            recording(calls).log.contains_key(key) ==> key.0 < tick || key.0 == tick && key.1
                < calls_in(calls, tick),
    decreases calls.len(),
{
    if calls.len() > 0 {
        let rest = calls.drop_last();
        let last = calls.last();
        if rest.len() > 0 {
            assert(rest.last() == calls[calls.len() - 2]);
            assert(last == calls[calls.len() - 1]);
        }
        lemma_next_key(rest, last.0);
        lemma_next_key(rest, tick);
        if last.0 < tick {
            lemma_no_calls_ahead(calls, tick);
        }
    }
}

/// No call was made in a tick that lies ahead.
proof fn lemma_no_calls_ahead(calls: Seq<Call>, tick: Tick)
    requires
        forall|i: int, j: int| 0 <= i < j < calls.len() ==> calls[i].0 <= calls[j].0,
        calls.len() > 0 ==> calls.last().0 < tick,
    ensures
        calls_in(calls, tick) == 0,
    decreases calls.len(),
{
    if calls.len() > 0 {
        let rest = calls.drop_last();
        if rest.len() > 0 {
            assert(rest.last() == calls[calls.len() - 2]);
            assert(calls.last() == calls[calls.len() - 1]);
        }
        lemma_no_calls_ahead(rest, tick);
    }
}

/// The log is append-only as long as ticks do not go back: a call adds one
/// entry, under its tick and the number of calls made in the tick before, and
/// changes or loses none.
pub proof fn law_log_is_append_only(calls: Seq<Call>, call: Call)
    requires
        calls.len() < u64::MAX,
        forall|i: int, j: int| 0 <= i < j < calls.len() ==> calls[i].0 <= calls[j].0,
        calls.len() > 0 ==> calls.last().0 <= call.0,
    ensures
        ({
            let before = recording(calls).log;
            let after = recording(calls.push(call)).log;
            let key = (call.0, calls_in(calls, call.0) as u64);
            &&& calls_in(calls, call.0) < u64::MAX
            &&& !before.contains_key(key)
            &&& after == before.insert(key, call.1)
            &&& after.dom().len() == before.dom().len() + 1
        }),
{
    lemma_next_key(calls, call.0);
    lemma_log_is_finite(calls);
    assert(calls.push(call).drop_last() =~= calls);
    let before = recording(calls).log;
    let key = (call.0, calls_in(calls, call.0) as u64);
    assert(before.insert(key, call.1).dom() =~= before.dom().insert(key));
}

proof fn lemma_log_is_finite(calls: Seq<Call>)
    ensures
        recording(calls).log.dom().finite(),
    decreases calls.len(),
{
    if calls.len() > 0 {
        lemma_log_is_finite(calls.drop_last());
        let before = recording(calls.drop_last());
        let key = before.key_at(calls.last().0);
        assert(recording(calls).log.dom() =~= before.log.dom().insert(key));
    }
}

/// Record, export, import, replay: where the ticks of a run never go back,
/// each call that is made again, in the same order and ticks, on a recorder
/// that imported the export, is accepted, succeeds, and gives the clock value
/// or the random bytes that were recorded.
pub proof fn law_exported_run_replays(
    calls: Seq<Call>,
    entries: Seq<(Tick, u64, ReplayEntry)>,
    i: int,
)
    requires
        calls.len() <= u64::MAX,
        forall|a: int, b: int| 0 <= a < b < calls.len() ==> calls[a].0 <= calls[b].0,
        log_of(entries) == recording(calls).log,
        0 <= i < calls.len(),
    ensures
        ({
            let replay = replaying(log_of(entries), calls.take(i));
            let tick = calls[i].0;
            &&& replay.mode is Replay
            &&& replay.ordinal_at(tick) < u64::MAX
            &&& match calls[i].1 {
                EntryView::Clock(value) => replay.replayed_clock(tick) == Ok::<u64, ReplayError>(
                    value,
                ),
                EntryView::Random(bytes) => replay.replayed_random(tick, bytes.len()) == Ok::<
                    Seq<u8>,
                    ReplayError,
                >(bytes),
            }
        }),
{
    let earlier = calls.take(i);
    law_run_in_tick_order_replays(calls);
    lemma_replay_keeps_step(log_of(entries), earlier);
    assert forall|a: int, b: int| 0 <= a < b < earlier.len() implies earlier[a].0
        <= earlier[b].0 by {
        assert(earlier[a] == calls[a] && earlier[b] == calls[b]);
    }
    if i > 0 {
        assert(earlier.last() == calls[i - 1]);
    }
    lemma_next_key(earlier, calls[i].0);
}

/// One recorder records what another replays: both have come to the same call,
/// and what was recorded so far is in the log that is replayed.
pub open spec fn in_step(recorder: RecorderView, replay: RecorderView) -> bool {
    &&& recorder.mode is Record
    &&& replay.mode is Replay
    &&& recorder.tick == replay.tick
    &&& recorder.ordinal == replay.ordinal
    &&& recorder.log.submap_of(replay.log)
}

/// Two recorders in step stay in step, and the replay gives what is recorded,
/// as long as the log that is replayed holds it.
pub proof fn law_recorders_stay_in_step(
    recorder: RecorderView,
    replay: RecorderView,
    tick: Tick,
    entry: EntryView,
)
    requires
        in_step(recorder, replay),
        recorder.recorded(tick, entry).log.submap_of(replay.log),
    ensures
        replay.replayed(tick) == Some(entry),
        in_step(recorder.recorded(tick, entry), replay.advanced(tick)),
{
    let key = recorder.key_at(tick);
    assert(recorder.recorded(tick, entry).log.dom().contains(key));
}

/// Replay never falls back to a real value: without an entry of the right
/// type there is an error, which names the call.
pub proof fn law_replay_without_entry_fails(state: RecorderView, tick: Tick, len: nat)
    requires
        state.replayed(tick) is None,
    ensures
        state.replayed_clock(tick) == Err::<u64, ReplayError>(
            ReplayError::MissingEntry { tick, ordinal: state.ordinal_at(tick) },
        ),
        state.replayed_random(tick, len) == Err::<Seq<u8>, ReplayError>(
            ReplayError::MissingEntry { tick, ordinal: state.ordinal_at(tick) },
        ),
{
}

/// Calls in one tick are numbered from 0 on, and a call in another tick starts
/// over. Each takes the next number.
pub proof fn law_calls_are_numbered_within_a_tick(state: RecorderView, tick: Tick, other: Tick)
    requires
        state.ordinal_at(tick) < u64::MAX,
    ensures
        tick != state.tick ==> state.ordinal_at(tick) == 0,
        tick == state.tick ==> state.ordinal_at(tick) == state.ordinal,
        state.key_at(tick) == (tick, state.ordinal_at(tick)),
        state.advanced(tick).ordinal_at(tick) == state.ordinal_at(tick) + 1,
        other != tick ==> state.advanced(tick).ordinal_at(other) == 0,
        state.advanced(tick).log == state.log,
        state.advanced(tick).mode == state.mode,
{
}

/// Recording a call adds its value under its key and leaves every other entry,
/// and otherwise does what any call does.
pub proof fn law_recording_adds_one_entry(
    state: RecorderView,
    tick: Tick,
    entry: EntryView,
    key: (Tick, u64),
)
    requires
        state.ordinal_at(tick) < u64::MAX,
    ensures
        ({
            let after = state.recorded(tick, entry);
            &&& after.log.contains_key((tick, state.ordinal_at(tick)))
            &&& after.log[(tick, state.ordinal_at(tick))] == entry
            &&& key != (tick, state.ordinal_at(tick)) ==> after.log.contains_key(key)
                == state.log.contains_key(key)
            &&& key != (tick, state.ordinal_at(tick)) && state.log.contains_key(key)
                ==> after.log[key] == state.log[key]
            &&& after.mode == state.mode
            &&& after.ordinal_at(tick) == state.ordinal_at(tick) + 1
        }),
{
}

/// A replay returns what the log holds for the call, if it is of the type, and
/// the length, that is asked for; otherwise an error that names the call and
/// says whether the entry is missing or of another type.
pub proof fn law_replay_returns_the_entry(state: RecorderView, tick: Tick, len: nat)
    ensures
        ({
            let key = (tick, state.ordinal_at(tick));
            let missing = ReplayError::MissingEntry { tick, ordinal: state.ordinal_at(tick) };
            let mismatch = ReplayError::TypeMismatch { tick, ordinal: state.ordinal_at(tick) };
            let clock = state.replayed_clock(tick);
            let random = state.replayed_random(tick, len);
            &&& !state.log.contains_key(key) ==> {
                &&& clock == Err::<u64, ReplayError>(missing)
                &&& random == Err::<Seq<u8>, ReplayError>(missing)
            }
            &&& state.log.contains_key(key) && state.log[key] is Clock ==> {
                &&& clock == Ok::<u64, ReplayError>(state.log[key]->Clock_0)
                &&& random == Err::<Seq<u8>, ReplayError>(mismatch)
            }
            &&& state.log.contains_key(key) && state.log[key] is Random ==> {
                &&& clock == Err::<u64, ReplayError>(mismatch)
                &&& state.log[key]->Random_0.len() == len ==> random == Ok::<Seq<u8>, ReplayError>(
                    state.log[key]->Random_0,
                )
                &&& state.log[key]->Random_0.len() != len ==> random == Err::<
                    Seq<u8>,
                    ReplayError,
                >(mismatch)
            }
        }),
{
}

/// A recorder starts in the mode and with the log that it is given, at ordinal
/// 0 of every tick.
pub proof fn law_recorder_starts_at_zero(mode: RecorderMode, log: Log, tick: Tick)
    ensures
        RecorderView::start(mode, log).mode == mode,
        RecorderView::start(mode, log).log == log,
        RecorderView::start(mode, log).ordinal_at(tick) == 0,
{
}

/// An imported entry counts under its tick and ordinal, unless a later one has
/// the same.
pub proof fn law_later_entry_counts(
    entries: Seq<(Tick, u64, ReplayEntry)>,
    entry: (Tick, u64, ReplayEntry),
    key: (Tick, u64),
)
    ensures
        !log_of(Seq::empty()).contains_key(key),
        log_of(entries.push(entry)).contains_key((entry.0, entry.1)),
        log_of(entries.push(entry))[(entry.0, entry.1)] == entry.2@,
        key != (entry.0, entry.1) ==> log_of(entries.push(entry)).contains_key(key) == log_of(
            entries,
        ).contains_key(key),
        key != (entry.0, entry.1) && log_of(entries).contains_key(key) ==> log_of(
            entries.push(entry),
        )[key] == log_of(entries)[key],
{
    assert(entries.push(entry).drop_last() =~= entries);
}

/// A recorder takes calls in every tick until the ordinals of the tick are
/// used up, and fetches exactly if it records.
pub proof fn law_recorder_fetches_only_to_record(recorder: EventRecorder, tick: Tick)
    ensures
        recorder.accepts(tick) <==> recorder@.ordinal_at(tick) < u64::MAX,
        recorder.fetches() <==> recorder@.mode is Record,
{
}

/// An entry holds the whole value that was recorded.
pub proof fn law_entry_holds_the_value(value: u64, bytes: Vec<u8>)
    ensures
        ReplayEntry::Clock(value)@ is Clock,
        ReplayEntry::Clock(value)@->Clock_0 == value,
        ReplayEntry::Random(bytes)@ is Random,
        ReplayEntry::Random(bytes)@->Random_0 == bytes@,
{
}

} // verus!
