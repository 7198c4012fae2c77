//! The event log and its pointer index: an append-only run of events, each with its size
//! and sequence number in front, and for each event the offset at which it begins.

use crate::bytes::{
    be_value, copy_range, lemma_be_bytes_len, lemma_be_value_bound, lemma_be_value_of_bytes,
    lemma_pow256_values, spec_be_value, spec_u64_be, u64_be,
};
use crate::interpreter::spec_parse_command;
use crate::replicator::{spec_event_record, spec_parse_chunks, SyncChunkView, EVENT_PTR_SIZE};
use vstd::prelude::*;

verus! {

/// Whether `pointers` index `events`: a pointer index is a run of eight-byte offsets, and
/// it indexes a log when the last offset is where the last event begins, that event
/// fills the log to its end and carries the number of the events before it, and the
/// offsets before index the log before.
pub open spec fn spec_log_consistent(events: Seq<u8>, pointers: Seq<u8>) -> bool
    decreases pointers.len(),
{
    if pointers.len() == 0 {
        events.len() == 0
    } else if pointers.len() < 8 {
        false
    } else {
        let before = pointers.take(pointers.len() - 8);
        let at = spec_be_value(pointers.skip(pointers.len() - 8)) as int;
        &&& at + 16 <= events.len()
        &&& spec_be_value(events.subrange(at, at + 8)) == events.len() - at - 16
        &&& spec_be_value(events.subrange(at + 8, at + 16)) == before.len() / 8
        &&& spec_log_consistent(events.take(at), before)
    }
}

/// The `i`-th offset in a pointer index.
pub open spec fn spec_pointer(pointers: Seq<u8>, i: int) -> int {
    spec_be_value(pointers.subrange(8 * i, 8 * i + 8)) as int
}

/// The offset at which the `i`-th event of a log begins when the events are read one
/// after the other from the start, each as long as its size field says.
pub open spec fn spec_event_offset(events: Seq<u8>, i: nat) -> int
    decreases i,
{
    if i == 0 {
        0
    } else {
        let at = spec_event_offset(events, (i - 1) as nat);
        at + 16 + spec_be_value(events.subrange(at, at + 8))
    }
}

/// The offset at which the `i`-th event of a log ends.
pub open spec fn spec_event_end(events: Seq<u8>, i: nat) -> int {
    let at = spec_event_offset(events, i);
    at + 16 + spec_be_value(events.subrange(at, at + 8))
}

/// The sequence number that the `i`-th event of a log carries.
pub open spec fn spec_event_number(events: Seq<u8>, i: nat) -> nat {
    let at = spec_event_offset(events, i);
    spec_be_value(events.subrange(at + 8, at + 16))
}

proof fn lemma_offset_prefix(events: Seq<u8>, cut: int, i: nat)
    requires
        0 <= cut <= events.len(),
        forall|j: nat|
            j < i ==> 0 <= #[trigger] spec_event_offset(events.take(cut), j)
                && spec_event_offset(events.take(cut), j) + 8 <= cut,
    ensures
        spec_event_offset(events, i) == spec_event_offset(events.take(cut), i),
    decreases i,
{
    if i > 0 {
        let j = (i - 1) as nat;
        lemma_offset_prefix(events, cut, j);
        let at = spec_event_offset(events.take(cut), j);
        assert(events.take(cut).subrange(at, at + 8) =~= events.subrange(at, at + 8));
    }
}

/// How a log with a fitting index is laid out: the index is a whole number of pointers,
/// the events fill the log exactly, and the `i`-th pointer is the offset of the `i`-th
/// event, which carries the number `i`.
pub proof fn lemma_log_layout(events: Seq<u8>, pointers: Seq<u8>)
    requires
        spec_log_consistent(events, pointers),
    ensures
        pointers.len() % 8 == 0,
        spec_event_offset(events, pointers.len() / 8) == events.len(),
        forall|i: nat|
            i < pointers.len() / 8 ==> {
                &&& 0 <= #[trigger] spec_event_offset(events, i)
                &&& spec_event_end(events, i) <= events.len()
                &&& spec_pointer(pointers, i as int) == spec_event_offset(events, i)
                &&& spec_event_number(events, i) == i
            },
    decreases pointers.len(),
{
    if pointers.len() > 0 {
        let before = pointers.take(pointers.len() - 8);
        let at = spec_be_value(pointers.skip(pointers.len() - 8)) as int;
        let head = events.take(at);
        let m = before.len() / 8;
        let mi = m as int;
        lemma_log_layout(head, before);
        assert(pointers.len() == 8 * m + 8);
        assert forall|i: nat| i <= m implies spec_event_offset(events, i) == spec_event_offset(
            head,
            i,
        ) by {
            assert forall|j: nat| j < i implies 0 <= #[trigger] spec_event_offset(head, j)
                && spec_event_offset(head, j) + 8 <= at by {
                assert(spec_event_end(head, j) <= head.len());
            }
            lemma_offset_prefix(events, at, i);
        }
        assert(spec_event_offset(events, m) == at);
        assert(pointers.subrange(8 * mi, 8 * mi + 8) =~= pointers.skip(pointers.len() - 8));
        assert forall|i: nat| i < pointers.len() / 8 implies {
            &&& 0 <= #[trigger] spec_event_offset(events, i)
            &&& spec_event_end(events, i) <= events.len()
            &&& spec_pointer(pointers, i as int) == spec_event_offset(events, i)
            &&& spec_event_number(events, i) == i
        } by {
            if i < m {
                let o = spec_event_offset(head, i);
                let ii = i as int;
                assert(spec_event_end(head, i) <= head.len());
                assert(head.subrange(o, o + 8) =~= events.subrange(o, o + 8));
                assert(before.subrange(8 * ii, 8 * ii + 8) =~= pointers.subrange(8 * ii, 8 * ii + 8));
                assert(head.subrange(o + 8, o + 16) =~= events.subrange(o + 8, o + 16));
                assert(spec_event_number(head, i) == i);
            }
        }
    }
}

/// The events of a log with a fitting index are numbered 0, 1, 2, … in the order in
/// which they stand, without gap.
pub proof fn lemma_event_numbers_count_up(events: Seq<u8>, pointers: Seq<u8>, i: nat)
    requires
        spec_log_consistent(events, pointers),
        i < pointers.len() / 8,
    ensures
        spec_event_number(events, i) == i,
{
    lemma_log_layout(events, pointers);
}

/// In a log with a fitting index, the `i`-th pointer is the byte offset at which the
/// `i`-th event begins, and the events end where the log ends.
pub proof fn lemma_pointers_are_offsets(events: Seq<u8>, pointers: Seq<u8>, i: nat)
    requires
        spec_log_consistent(events, pointers),
        i < pointers.len() / 8,
    ensures
        spec_pointer(pointers, i as int) == spec_event_offset(events, i),
        spec_event_offset(events, i) + 16 <= events.len(),
        spec_event_offset(events, pointers.len() / 8) == events.len(),
{
    lemma_log_layout(events, pointers);
}

/// What follows the `i`-th pointer of a log reads as a dump: it holds the events from
/// the `i`-th on, numbered from `i` up.
pub proof fn lemma_log_tail_parses(events: Seq<u8>, pointers: Seq<u8>, i: nat)
    requires
        spec_log_consistent(events, pointers),
        i <= pointers.len() / 8,
    ensures
        spec_parse_chunks(events.skip(spec_event_offset(events, i))) is Some,
        spec_parse_chunks(events.skip(spec_event_offset(events, i)))->Some_0.len()
            == pointers.len() / 8 - i,
        forall|k: int|
            0 <= k < pointers.len() / 8 - i ==> (#[trigger] spec_parse_chunks(
                events.skip(spec_event_offset(events, i)),
            )->Some_0[k]).number == i + k,
    decreases pointers.len() / 8 - i,
{
    lemma_log_layout(events, pointers);
    let count = pointers.len() / 8;
    let at = spec_event_offset(events, i);
    let tail = events.skip(at);
    if i < count {
        let size = spec_be_value(events.subrange(at, at + 8)) as int;
        let next = at + 16 + size;
        assert(spec_event_end(events, i) == next);
        assert(next == spec_event_offset(events, i + 1));
        lemma_log_tail_parses(events, pointers, i + 1);
        let rest = spec_parse_chunks(events.skip(next))->Some_0;
        assert(tail.subrange(0, 8) =~= events.subrange(at, at + 8));
        assert(tail.subrange(8, 16) =~= events.subrange(at + 8, at + 16));
        assert(tail.skip(16 + size) =~= events.skip(next));
        assert(spec_event_number(events, i) == i);
        lemma_be_value_bound(events.subrange(at + 8, at + 16));
        lemma_pow256_values();
        let chunk = SyncChunkView {
            command: spec_parse_command(tail.subrange(16, 16 + size)),
            number: i as u64,
        };
        assert(spec_parse_chunks(tail) == Some(seq![chunk] + rest));
        let all = seq![chunk] + rest;
        assert forall|k: int| 0 <= k < count - i implies (#[trigger] all[k]).number == i + k by {
            if k > 0 {
                assert(all[k] == rest[k - 1]);
            }
        }
    } else {
        assert(tail =~= Seq::<u8>::empty());
    }
}

/// The part of a log that is due to a reader whose last applied event is
/// `last_replication_id`: what stands from the pointer of the next event on. There is
/// none when the index has no such pointer, or when the pointer leads out of the log.
pub open spec fn spec_sync_payload(
    pointers: Seq<u8>,
    events: Seq<u8>,
    last_replication_id: Option<u64>,
) -> Option<Seq<u8>> {
    let start: int = match last_replication_id {
        Some(id) => id + 1,
        None => 0,
    };
    if 8 * start + 8 > pointers.len() {
        None
    } else if spec_pointer(pointers, start) > events.len() {
        None
    } else {
        Some(events.skip(spec_pointer(pointers, start)))
    }
}

/// What a writer sends to a reader whose last applied event is `last_replication_id`,
/// computed from the contents of the pointer index and of the event log.
pub fn sync_payload(
    pointers: &Vec<u8>,
    events: &Vec<u8>,
    last_replication_id: Option<u64>,
) -> (r: Option<Vec<u8>>)
    ensures
        r is Some <==> spec_sync_payload(pointers@, events@, last_replication_id) is Some,
        r matches Some(payload) ==> payload@ == spec_sync_payload(
            pointers@,
            events@,
            last_replication_id,
        )->Some_0,
{
    assert(pointers@.len() == pointers.len());
    let start: u64 = match last_replication_id {
        Some(id) => {
            if id == u64::MAX {
                return None;
            }
            id + 1
        },
        None => 0,
    };
    if start >= (pointers.len() / EVENT_PTR_SIZE) as u64 {
        return None;
    }
    let index: usize = start as usize;
    let at: u64 = be_value(pointers, index * EVENT_PTR_SIZE, EVENT_PTR_SIZE);
    if at > events.len() as u64 {
        return None;
    }
    let payload = copy_range(events, at as usize, events.len());
    assert(payload@ =~= events@.skip(at as int));
    Some(payload)
}

/// The bytes that logging one command adds to the two files.
pub struct EventAppend {
    /// For the end of the event log.
    pub event_bytes: Vec<u8>,
    /// For the end of the pointer index.
    pub pointer_bytes: Vec<u8>,
}

/// The event log and its pointer index, as they stand in their files.
pub struct EventLog {
    events: Vec<u8>,
    pointers: Vec<u8>,
}

impl EventLog {
    /// The bytes of the event log.
    pub closed spec fn events_view(&self) -> Seq<u8> {
        self.events@
    }

    /// The bytes of the pointer index.
    pub closed spec fn pointers_view(&self) -> Seq<u8> {
        self.pointers@
    }

    /// The index fits the log.
    pub open spec fn wf(&self) -> bool {
        spec_log_consistent(self.events_view(), self.pointers_view())
    }

    /// The log of a fresh directory.
    pub fn new() -> (r: Self)
        ensures
            r.wf(),
            r.events_view() == Seq::<u8>::empty(),
            r.pointers_view() == Seq::<u8>::empty(),
    {
        EventLog { events: Vec::new(), pointers: Vec::new() }
    }

    /// Takes over the contents of the two files, if the index fits the log.
    pub fn load(events: Vec<u8>, pointers: Vec<u8>) -> (r: Option<Self>)
        ensures
            r is Some <==> spec_log_consistent(events@, pointers@),
            r matches Some(log) ==> log.events_view() == events@ && log.pointers_view()
                == pointers@,
    {
        proof {
            if spec_log_consistent(events@, pointers@) {
                lemma_log_layout(events@, pointers@);
            }
        }
        if pointers.len() % EVENT_PTR_SIZE != 0 {
            return None;
        }
        let count: usize = pointers.len() / EVENT_PTR_SIZE;
        let mut pos: usize = 0;
        let mut i: usize = 0;
        assert(pointers@.take(0) =~= Seq::<u8>::empty());
        while i < count
            invariant
                i <= count,
                pointers.len() == 8 * count,
                pos <= events.len(),
                pos == spec_event_offset(events@, i as nat),
                spec_log_consistent(events@.take(pos as int), pointers@.take(8 * i)),
                spec_log_consistent(events@, pointers@) ==> forall|k: nat|
                    k < count ==> {
                        &&& 0 <= #[trigger] spec_event_offset(events@, k)
                        &&& spec_event_end(events@, k) <= events@.len()
                        &&& spec_pointer(pointers@, k as int) == spec_event_offset(events@, k)
                        &&& spec_event_number(events@, k) == k
                    },
            decreases count - i,
        {
            if events.len() - pos < 2 * EVENT_PTR_SIZE {
                assert(spec_event_offset(events@, i as nat) + 16 > events@.len());
                return None;
            }
            let pointer: u64 = be_value(&pointers, i * EVENT_PTR_SIZE, EVENT_PTR_SIZE);
            let size: u64 = be_value(&events, pos, EVENT_PTR_SIZE);
            let number: u64 = be_value(&events, pos + EVENT_PTR_SIZE, EVENT_PTR_SIZE);
            assert(pointer == spec_pointer(pointers@, i as int));
            assert(number == spec_event_number(events@, i as nat));
            assert(spec_event_end(events@, i as nat) == pos + 16 + size);
            if pointer != pos as u64 || number != i as u64 {
                return None;
            }
            if ((events.len() - pos - 2 * EVENT_PTR_SIZE) as u64) < size {
                return None;
            }
            let next: usize = pos + 2 * EVENT_PTR_SIZE + size as usize;
            proof {
                let head = events@.take(next as int);
                let index = pointers@.take(8 * (i + 1));
                assert(index.take(index.len() - 8) =~= pointers@.take(8 * i));
                assert(index.skip(index.len() - 8) =~= pointers@.subrange(8 * i, 8 * i + 8));
                assert(head.subrange(pos as int, pos + 8) =~= events@.subrange(
                    pos as int,
                    pos + 8,
                ));
                assert(head.subrange(pos + 8, pos + 16) =~= events@.subrange(pos + 8, pos + 16));
                assert(head.take(pos as int) =~= events@.take(pos as int));
            }
            pos = next;
            i = i + 1;
        }
        if pos != events.len() {
            return None;
        }
        assert(events@.take(pos as int) =~= events@);
        assert(pointers@.take(8 * i) =~= pointers@);
        Some(EventLog { events, pointers })
    }

    pub fn events(&self) -> (r: &Vec<u8>)
        ensures
            r@ == self.events_view(),
    {
        &self.events
    }

    pub fn pointers(&self) -> (r: &Vec<u8>)
        ensures
            r@ == self.pointers_view(),
    {
        &self.pointers
    }

    /// The sequence number that the next event gets: the number of pointers so far.
    pub fn next_event_log_number(&self) -> (r: u64)
        ensures
            r == self.pointers_view().len() / 8,
    {
        (self.pointers.len() / EVENT_PTR_SIZE) as u64
    }

    /// The offset at which the next event begins: the size of the log so far.
    pub fn event_log_file_size(&self) -> (r: u64)
        ensures
            r == self.events_view().len(),
    {
        self.events.len() as u64
    }

    /// Logs one command: its record goes to the end of the log, the offset of that
    /// record to the end of the index.
    pub fn append(&mut self, command_bytes: &Vec<u8>) -> (r: EventAppend)
        requires
            old(self).wf(),
        ensures
            final(self).wf(),
            r.event_bytes@ == spec_event_record(
                command_bytes@,
                (old(self).pointers_view().len() / 8) as u64,
            ),
            r.pointer_bytes@ == spec_u64_be(old(self).events_view().len() as u64),
            final(self).events_view() == old(self).events_view() + r.event_bytes@,
            final(self).pointers_view() == old(self).pointers_view() + r.pointer_bytes@,
    {
        let number: u64 = self.next_event_log_number();
        let pos: u64 = self.event_log_file_size();
        let mut event_bytes: Vec<u8> = u64_be(command_bytes.len() as u64);
        let mut number_bytes: Vec<u8> = u64_be(number);
        event_bytes.append(&mut number_bytes);
        event_bytes.extend_from_slice(command_bytes.as_slice());
        assert(event_bytes@ =~= spec_event_record(command_bytes@, number));
        let pointer_bytes: Vec<u8> = u64_be(pos);
        self.events.extend_from_slice(event_bytes.as_slice());
        self.pointers.extend_from_slice(pointer_bytes.as_slice());
        assert(self.events@ =~= old(self).events@ + event_bytes@);
        assert(self.pointers@ =~= old(self).pointers@ + pointer_bytes@);
        proof {
            lemma_append_consistent(old(self).events@, old(self).pointers@, command_bytes@);
        }
        EventAppend { event_bytes, pointer_bytes }
    }
}

/// Logging a command keeps the index fitting the log.
pub proof fn lemma_append_consistent(events: Seq<u8>, pointers: Seq<u8>, command: Seq<u8>)
    requires
        spec_log_consistent(events, pointers),
        events.len() <= u64::MAX,
        command.len() <= u64::MAX,
        pointers.len() / 8 <= u64::MAX,
    ensures
        spec_log_consistent(
            events + spec_event_record(command, (pointers.len() / 8) as u64),
            pointers + spec_u64_be(events.len() as u64),
        ),
{
    let number = (pointers.len() / 8) as u64;
    let record = spec_event_record(command, number);
    let events2 = events + record;
    let pointers2 = pointers + spec_u64_be(events.len() as u64);
    lemma_pow256_values();
    lemma_be_bytes_len(events.len(), 8);
    lemma_be_bytes_len(command.len(), 8);
    lemma_be_bytes_len(number as nat, 8);
    lemma_be_value_of_bytes(events.len(), 8);
    lemma_be_value_of_bytes(command.len(), 8);
    lemma_be_value_of_bytes(number as nat, 8);
    let at = events.len() as int;
    assert(pointers2.take(pointers2.len() - 8) =~= pointers);
    assert(pointers2.skip(pointers2.len() - 8) =~= spec_u64_be(events.len() as u64));
    assert(events2.subrange(at, at + 8) =~= spec_u64_be(command.len() as u64));
    assert(events2.subrange(at + 8, at + 16) =~= spec_u64_be(number));
    assert(events2.take(at) =~= events);
}

} // verus!
