//! Replication: a writer logs its events and pushes them to its readers as dumps; a
//! reader applies the events of a dump that are new to it.

use crate::bytes::{
    be_value, copy_range, lemma_find_unique, spec_be_value, spec_find, spec_u64_be,
};
use crate::event_log::{
    spec_log_consistent, spec_sync_payload, sync_payload, EventAppend, EventLog,
};
use crate::interpreter::{spec_command_bytes, spec_parse_command, Command, CommandView};
use crate::response_frame::{ResponseFrame, ResponseFrameView};
use crate::storage::{spec_execute_reply, spec_execute_store, Executor, Storage, StoreView};
use vstd::prelude::*;
use vstd::string::StrSliceExecFns;

verus! {

/// Width in bytes of a sequence number, a size and a pointer.
pub const EVENT_PTR_SIZE: usize = 8;

/// A reader to which a writer pushes its events.
#[derive(Debug)]
pub struct Reader {
    addr: String,
}

impl View for Reader {
    type V = Seq<char>;

    closed spec fn view(&self) -> Seq<char> {
        self.addr@
    }
}

impl Reader {
    pub fn new(addr: String) -> (r: Self)
        ensures
            r@ == addr@,
    {
        Self { addr }
    }

    /// The reader at the address `s`; an empty address is refused.
    pub fn try_from(s: &str) -> (r: Result<Self, ()>)
        ensures
            r is Ok <==> s@.len() > 0,
            r matches Ok(reader) ==> reader@ == s@,
    {
        if s.is_empty() {
            Err(())
        } else {
            Ok(Reader::new(s.to_owned()))
        }
    }

    /// The address of the reader.
    pub fn addr(&self) -> (r: &String)
        ensures
            r@ == self@,
    {
        &self.addr
    }
}

/// The readers of a writer.
#[derive(Debug)]
pub struct ReaderList(pub Vec<Reader>);

impl View for ReaderList {
    type V = Seq<Seq<char>>;

    open spec fn view(&self) -> Seq<Seq<char>> {
        Seq::new(self.0@.len(), |i: int| self.0@[i]@)
    }
}

/// The addresses in a comma-separated list, in order; empty items are passed over.
pub open spec fn spec_split_addresses(s: Seq<char>) -> Seq<Seq<char>>
    decreases s.len(),
{
    let end = spec_find(s, ',');
    let first = if end > 0 {
        seq![s.take(end)]
    } else {
        Seq::empty()
    };
    if 0 <= end < s.len() {
        first + spec_split_addresses(s.skip(end + 1))
    } else {
        first
    }
}

impl ReaderList {
    pub fn new(readers: Vec<Reader>) -> (r: Self)
        ensures
            r.0 == readers,
    {
        Self(readers)
    }

    /// The readers named in a comma-separated list of addresses.
    pub fn try_from(s: &str) -> (r: Result<Self, ()>)
        ensures
            r is Ok,
            r->Ok_0@ == spec_split_addresses(s@),
    {
        let n: usize = s.unicode_len();
        let mut readers: Vec<Reader> = Vec::new();
        let mut start: usize = 0;
        let mut i: usize = 0;
        let ghost mut done: Seq<Seq<char>> = Seq::empty();
        assert(s@.skip(0) =~= s@);
        while i < n
            invariant
                start <= i <= n,
                n == s@.len(),
                done == Seq::new(readers@.len(), |k: int| readers@[k]@),
                forall|k: int| start <= k < i ==> s@[k] != ',',
                spec_split_addresses(s@) == done + spec_split_addresses(s@.skip(start as int)),
            decreases n - i,
        {
            if s.get_char(i) == ',' {
                let ghost tail = s@.skip(start as int);
                proof {
                    assert forall|k: int| 0 <= k < i - start implies tail[k] != ',' by {
                        assert(tail[k] == s@[start + k]);
                    }
                    lemma_find_unique(tail, ',', i - start);
                    assert(tail.skip(i - start + 1) =~= s@.skip(i + 1));
                    assert(tail.take(i - start) =~= s@.subrange(start as int, i as int));
                }
                if i > start {
                    readers.push(Reader::new(s.substring_char(start, i).to_owned()));
                    proof {
                        let piece = s@.subrange(start as int, i as int);
                        assert(done + (seq![piece] + spec_split_addresses(s@.skip(i + 1)))
                            =~= done.push(piece) + spec_split_addresses(s@.skip(i + 1)));
                        done = done.push(piece);
                        assert(done =~= Seq::new(readers@.len(), |k: int| readers@[k]@));
                    }
                } else {
                    assert(done + (Seq::<Seq<char>>::empty() + spec_split_addresses(
                        s@.skip(i + 1),
                    )) =~= done + spec_split_addresses(s@.skip(i + 1)));
                }
                start = i + 1;
            }
            i = i + 1;
        }
        let ghost tail = s@.skip(start as int);
        proof {
            assert forall|k: int| 0 <= k < n - start implies tail[k] != ',' by {
                assert(tail[k] == s@[start + k]);
            }
            lemma_find_unique(tail, ',', n - start);
            assert(tail.take(n - start) =~= s@.subrange(start as int, n as int));
        }
        if n > start {
            readers.push(Reader::new(s.substring_char(start, n).to_owned()));
            proof {
                let piece = s@.subrange(start as int, n as int);
                assert(done + seq![piece] =~= done.push(piece));
                done = done.push(piece);
            }
        } else {
            assert(done + Seq::<Seq<char>>::empty() =~= done);
        }
        let list = ReaderList(readers);
        assert(list@ =~= done);
        Ok(list)
    }
}

/// A command with the sequence number it was logged under.
pub struct SyncChunk {
    pub command: Command,
    pub number: u64,
}

/// The mathematical content of a chunk.
pub struct SyncChunkView {
    pub command: CommandView,
    pub number: u64,
}

impl View for SyncChunk {
    type V = SyncChunkView;

    open spec fn view(&self) -> SyncChunkView {
        SyncChunkView { command: self.command@, number: self.number }
    }
}

impl SyncChunk {
    pub fn new(command: Command, number: u64) -> (r: Self)
        ensures
            r.command == command,
            r.number == number,
    {
        SyncChunk { command, number }
    }
}

/// The chunks of one dump, in the order they were sent.
pub struct SyncChunkList(pub Vec<SyncChunk>);

impl View for SyncChunkList {
    type V = Seq<SyncChunkView>;

    open spec fn view(&self) -> Seq<SyncChunkView> {
        Seq::new(self.0@.len(), |i: int| self.0@[i]@)
    }
}

/// One event as it stands in the log and in a dump: size, sequence number, command.
pub open spec fn spec_event_record(command: Seq<u8>, number: u64) -> Seq<u8> {
    spec_u64_be(command.len() as u64) + spec_u64_be(number) + command
}

/// The chunks that a dump is made of. Each chunk is an eight-byte command size, an
/// eight-byte sequence number and a command of that size; a dump that ends inside a
/// chunk has no reading at all.
pub open spec fn spec_parse_chunks(dump: Seq<u8>) -> Option<Seq<SyncChunkView>>
    decreases dump.len(),
{
    if dump.len() == 0 {
        Some(Seq::empty())
    } else if dump.len() < 16 {
        None
    } else {
        let size = spec_be_value(dump.subrange(0, 8)) as int;
        let number = spec_be_value(dump.subrange(8, 16));
        if dump.len() - 16 < size {
            None
        } else {
            let chunk = SyncChunkView {
                command: spec_parse_command(dump.subrange(16, 16 + size)),
                number: number as u64,
            };
            match spec_parse_chunks(dump.skip(16 + size)) {
                Some(rest) => Some(seq![chunk] + rest),
                None => None,
            }
        }
    }
}

impl SyncChunkList {
    /// Reads a dump into its chunks; fails exactly when the sizes do not line up.
    pub fn try_from(bytes: Vec<u8>) -> (r: Result<SyncChunkList, ()>)
        ensures
            match spec_parse_chunks(bytes@) {
                Some(chunks) => r is Ok && r->Ok_0@ == chunks,
                None => r is Err,
            },
    {
        let mut chunks: Vec<SyncChunk> = Vec::new();
        let mut pos: usize = 0;
        let ghost mut done: Seq<SyncChunkView> = Seq::empty();
        assert(bytes@.skip(0) =~= bytes@);
        while pos < bytes.len()
            invariant
                pos <= bytes.len(),
                done == Seq::new(chunks@.len(), |i: int| chunks@[i]@),
                spec_parse_chunks(bytes@) == match spec_parse_chunks(bytes@.skip(pos as int)) {
                    Some(rest) => Some(done + rest),
                    None => None,
                },
            decreases bytes.len() - pos,
        {
            let ghost tail = bytes@.skip(pos as int);
            if bytes.len() - pos < 2 * EVENT_PTR_SIZE {
                return Err(());
            }
            let size: u64 = be_value(&bytes, pos, EVENT_PTR_SIZE);
            let number: u64 = be_value(&bytes, pos + EVENT_PTR_SIZE, EVENT_PTR_SIZE);
            assert(tail.subrange(0, 8) =~= bytes@.subrange(pos as int, pos + 8));
            assert(tail.subrange(8, 16) =~= bytes@.subrange(pos + 8, pos + 16));
            let body: usize = pos + 2 * EVENT_PTR_SIZE;
            if ((bytes.len() - body) as u64) < size {
                return Err(());
            }
            let end: usize = body + size as usize;
            let command_bytes = copy_range(&bytes, body, end);
            assert(command_bytes@ =~= tail.subrange(16, 16 + size));
            assert(tail.skip(16 + size) =~= bytes@.skip(end as int));
            let command = Command::from(command_bytes);
            let chunk = SyncChunk::new(command, number);
            proof {
                let rest = spec_parse_chunks(bytes@.skip(end as int));
                if rest is Some {
                    assert(done + (seq![chunk@] + rest->Some_0) =~= done.push(chunk@)
                        + rest->Some_0);
                }
                done = done.push(chunk@);
            }
            chunks.push(chunk);
            assert(done =~= Seq::new(chunks@.len(), |i: int| chunks@[i]@));
            pos = end;
        }
        let list = SyncChunkList(chunks);
        assert(list@ =~= done);
        assert(done + Seq::<SyncChunkView>::empty() =~= done);
        Ok(list)
    }
}

/// A reader's replica while a dump is applied to it.
pub struct ReplicaState {
    /// What the store holds.
    pub store: StoreView,
    /// Sequence number of the last event applied, if any ever was.
    pub last_id: Option<u64>,
    /// The commands applied from the dump so far, in order.
    pub applied: Seq<CommandView>,
}

/// Whether a chunk is new to a replica whose last applied event is `last_id`.
pub open spec fn spec_chunk_is_new(last_id: Option<u64>, number: u64) -> bool {
    match last_id {
        Some(id) => number > id,
        None => true,
    }
}

/// The replica after one chunk. A chunk that is not new is skipped. A new one is run on
/// the store; unless the store refuses its command, it becomes the last applied event.
pub open spec fn spec_apply_chunk(state: ReplicaState, chunk: SyncChunkView) -> ReplicaState {
    if !spec_chunk_is_new(state.last_id, chunk.number) {
        state
    } else if spec_execute_reply(state.store, chunk.command)
        == ResponseFrameView::ErrorInvalidCommand {
        state
    } else {
        ReplicaState {
            store: spec_execute_store(state.store, chunk.command),
            last_id: Some(chunk.number),
            applied: state.applied.push(chunk.command),
        }
    }
}

/// The replica after all chunks of a dump, taken in order.
pub open spec fn spec_apply_chunks(state: ReplicaState, chunks: Seq<SyncChunkView>) -> ReplicaState
    decreases chunks.len(),
{
    if chunks.len() == 0 {
        state
    } else {
        spec_apply_chunk(spec_apply_chunks(state, chunks.drop_last()), chunks.last())
    }
}

/// A dump whose events are all at or below the replica's last applied event changes
/// nothing: not the store, not the last applied event, and nothing counts as applied.
pub proof fn lemma_apply_old_chunks(state: ReplicaState, chunks: Seq<SyncChunkView>)
    requires
        state.last_id is Some,
        forall|i: int| 0 <= i < chunks.len() ==> chunks[i].number <= state.last_id->Some_0,
    ensures
        spec_apply_chunks(state, chunks) == state,
    decreases chunks.len(),
{
    if chunks.len() > 0 {
        lemma_apply_old_chunks(state, chunks.drop_last());
    }
}

/// What applying a dump came to.
pub struct RestoreResult {
    /// Sequence number of the last event applied from the dump, if any was.
    pub last_event_id: Option<u64>,
    /// The commands applied, in order: they are due to the backup.
    pub applied_commands: Vec<Command>,
    /// The reply owed to the sender.
    pub response: ResponseFrame,
}

impl RestoreResult {
    /// The applied commands as mathematical values.
    pub open spec fn applied_view(&self) -> Seq<CommandView> {
        Seq::new(self.applied_commands@.len(), |i: int| self.applied_commands@[i]@)
    }
}

/// Applies a dump to `storage`, for a replica whose last applied event is
/// `current_committed_event_id`. A dump that cannot be read is refused as a whole.
pub fn apply_sync(
    storage: &mut Storage,
    dump: Vec<u8>,
    current_committed_event_id: Option<u64>,
) -> (r: RestoreResult)
    ensures
        match spec_parse_chunks(dump@) {
            None => {
                &&& r.response@ == ResponseFrameView::ErrorInvalidCommand
                &&& r.last_event_id is None
                &&& r.applied_view() == Seq::<CommandView>::empty()
                &&& final(storage)@ == old(storage)@
            },
            Some(chunks) => {
                let end = spec_apply_chunks(
                    ReplicaState {
                        store: old(storage)@,
                        last_id: current_committed_event_id,
                        applied: Seq::empty(),
                    },
                    chunks,
                );
                &&& r.response@ == ResponseFrameView::Success
                &&& r.applied_view() == end.applied
                &&& r.last_event_id == (if end.applied.len() > 0 {
                    end.last_id
                } else {
                    None
                })
                &&& final(storage)@ == end.store
            },
        },
{
    let list = match SyncChunkList::try_from(dump) {
        Ok(list) => list,
        Err(_) => {
            let r = RestoreResult {
                last_event_id: None,
                applied_commands: Vec::new(),
                response: ResponseFrame::ErrorInvalidCommand,
            };
            assert(r.applied_view() =~= Seq::<CommandView>::empty());
            return r;
        },
    };
    let ghost chunks = list@;
    let ghost start = ReplicaState {
        store: storage@,
        last_id: current_committed_event_id,
        applied: Seq::empty(),
    };
    let mut last_id: Option<u64> = current_committed_event_id;
    let mut last_applied: Option<u64> = None;
    let mut applied: Vec<Command> = Vec::new();
    let mut i: usize = 0;
    assert(chunks.take(0) =~= Seq::<SyncChunkView>::empty());
    while i < list.0.len()
        invariant
            i <= list.0.len(),
            chunks == list@,
            ({
                let now = spec_apply_chunks(start, chunks.take(i as int));
                &&& storage@ == now.store
                &&& last_id == now.last_id
                &&& now.applied == Seq::new(applied@.len(), |k: int| applied@[k]@)
                &&& last_applied == (if now.applied.len() > 0 {
                    now.last_id
                } else {
                    None
                })
            }),
        decreases list.0.len() - i,
    {
        let chunk = &list.0[i];
        proof {
            assert(chunks.take(i + 1).drop_last() =~= chunks.take(i as int));
            assert(chunks.take(i + 1).last() == chunk@);
        }
        let is_new = match last_id {
            Some(id) => chunk.number > id,
            None => true,
        };
        if is_new {
            match storage.execute(&chunk.command) {
                ResponseFrame::ErrorInvalidCommand => {},
                _ => {
                    last_id = Some(chunk.number);
                    last_applied = Some(chunk.number);
                    applied.push(chunk.command.duplicate());
                    assert(Seq::new(applied@.len(), |k: int| applied@[k]@) =~= spec_apply_chunks(
                        start,
                        chunks.take(i + 1),
                    ).applied);
                },
            }
        }
        i = i + 1;
    }
    assert(chunks.take(i as int) =~= chunks);
    RestoreResult {
        last_event_id: last_applied,
        applied_commands: applied,
        response: ResponseFrame::Success,
    }
}

/// The bytes under which a command is logged: only `SetValue` and `Delete` are events.
pub open spec fn spec_logged_bytes(command: CommandView) -> Option<Seq<u8>> {
    match command {
        CommandView::SetValue { .. } => spec_command_bytes(command),
        CommandView::Delete { .. } => spec_command_bytes(command),
        _ => None,
    }
}

/// File name of the event log within the directory of the replicator.
pub open spec fn spec_event_log_file_name() -> Seq<char> {
    "__traf_replicator_event_log.db"@
}

/// File name of the pointer index within the directory of the replicator.
pub open spec fn spec_event_log_pointers_file_name() -> Seq<char> {
    "__traf_replicator_event_log_pointers.db"@
}

/// The writer's side of replication: the event log, and the readers it is pushed to.
pub struct Replicator {
    dir: String,
    readers: ReaderList,
    event_log: EventLog,
}

impl Replicator {
    /// The bytes of the event log.
    pub closed spec fn events_view(&self) -> Seq<u8> {
        self.event_log.events_view()
    }

    /// The bytes of the pointer index.
    pub closed spec fn pointers_view(&self) -> Seq<u8> {
        self.event_log.pointers_view()
    }

    /// The addresses of the readers.
    pub closed spec fn readers_view(&self) -> Seq<Seq<char>> {
        self.readers@
    }

    /// The directory of the two files.
    pub closed spec fn dir_view(&self) -> Seq<char> {
        self.dir@
    }

    /// The index fits the log.
    pub open spec fn wf(&self) -> bool {
        spec_log_consistent(self.events_view(), self.pointers_view())
    }

    /// A replicator on a fresh directory: nothing is logged yet.
    pub fn new(dir: String, readers: ReaderList) -> (r: Self)
        ensures
            r.wf(),
            r.dir_view() == dir@,
            r.readers_view() == readers@,
            r.events_view() == Seq::<u8>::empty(),
            r.pointers_view() == Seq::<u8>::empty(),
    {
        Self { dir, readers, event_log: EventLog::new() }
    }

    /// A replicator that carries on with a log that is there.
    pub fn with_event_log(dir: String, readers: ReaderList, event_log: EventLog) -> (r: Self)
        requires
            event_log.wf(),
        ensures
            r.wf(),
            r.dir_view() == dir@,
            r.readers_view() == readers@,
            r.events_view() == event_log.events_view(),
            r.pointers_view() == event_log.pointers_view(),
    {
        Self { dir, readers, event_log }
    }

    /// The directory of the two files.
    pub fn dir(&self) -> (r: &String)
        ensures
            r@ == self.dir_view(),
    {
        &self.dir
    }

    /// The readers.
    pub fn readers(&self) -> (r: &ReaderList)
        ensures
            r@ == self.readers_view(),
    {
        &self.readers
    }

    /// The event log with its index.
    pub fn event_log(&self) -> (r: &EventLog)
        ensures
            r.events_view() == self.events_view(),
            r.pointers_view() == self.pointers_view(),
    {
        &self.event_log
    }

    /// Logs a command if it is an event. Returns what the event adds to the two files.
    pub fn log(&mut self, cmd: &Command) -> (r: Option<EventAppend>)
        requires
            old(self).wf(),
        ensures
            final(self).wf(),
            final(self).dir_view() == old(self).dir_view(),
            final(self).readers_view() == old(self).readers_view(),
            match spec_logged_bytes(cmd@) {
                Some(bytes) => {
                    &&& r matches Some(added)
                    &&& added.event_bytes@ == spec_event_record(
                        bytes,
                        (old(self).pointers_view().len() / 8) as u64,
                    )
                    &&& added.pointer_bytes@ == spec_u64_be(old(self).events_view().len() as u64)
                    &&& final(self).events_view() == old(self).events_view() + added.event_bytes@
                    &&& final(self).pointers_view() == old(self).pointers_view()
                        + added.pointer_bytes@
                },
                None => {
                    &&& r is None
                    &&& final(self).events_view() == old(self).events_view()
                    &&& final(self).pointers_view() == old(self).pointers_view()
                },
            },
    {
        match cmd {
            Command::SetValue { .. } | Command::Delete { .. } => {
                let bytes = cmd.as_bytes().unwrap();
                Some(self.event_log.append(&bytes))
            },
            _ => None,
        }
    }

    /// Applies a dump to `storage`, for a replica whose last applied event is
    /// `current_committed_event_id`.
    pub fn restore(
        &self,
        storage: &mut Storage,
        dump: Vec<u8>,
        current_committed_event_id: Option<u64>,
    ) -> (r: RestoreResult)
        ensures
            match spec_parse_chunks(dump@) {
                None => {
                    &&& r.response@ == ResponseFrameView::ErrorInvalidCommand
                    &&& r.last_event_id is None
                    &&& r.applied_view() == Seq::<CommandView>::empty()
                    &&& final(storage)@ == old(storage)@
                },
                Some(chunks) => {
                    let end = spec_apply_chunks(
                        ReplicaState {
                            store: old(storage)@,
                            last_id: current_committed_event_id,
                            applied: Seq::empty(),
                        },
                        chunks,
                    );
                    &&& r.response@ == ResponseFrameView::Success
                    &&& r.applied_view() == end.applied
                    &&& r.last_event_id == (if end.applied.len() > 0 {
                        end.last_id
                    } else {
                        None
                    })
                    &&& final(storage)@ == end.store
                },
            },
    {
        apply_sync(storage, dump, current_committed_event_id)
    }

    /// Whether the readers are due a push after an event. They always are.
    pub fn should_sync(&self) -> (r: bool)
        ensures
            r,
    {
        true
    }

    /// What is due to a reader whose last applied event is `last_replication_id`.
    pub fn sync_payload(&self, last_replication_id: Option<u64>) -> (r: Option<Vec<u8>>)
        ensures
            r is Some <==> spec_sync_payload(
                self.pointers_view(),
                self.events_view(),
                last_replication_id,
            ) is Some,
            r matches Some(payload) ==> payload@ == spec_sync_payload(
                self.pointers_view(),
                self.events_view(),
                last_replication_id,
            )->Some_0,
    {
        sync_payload(self.event_log.pointers(), self.event_log.events(), last_replication_id)
    }

    /// File name of the pointer index within the directory of the replicator.
    pub fn event_log_pointers_file_name() -> (r: &'static str)
        ensures
            r@ == spec_event_log_pointers_file_name(),
    {
        "__traf_replicator_event_log_pointers.db"
    }

    /// File name of the event log within the directory of the replicator.
    pub fn event_log_file_name() -> (r: &'static str)
        ensures
            r@ == spec_event_log_file_name(),
    {
        "__traf_replicator_event_log.db"
    }
}

} // verus!
