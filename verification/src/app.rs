//! The dispatcher: one request in, one reply out, with the store, the backup and the
//! replication log kept in step.

use crate::bytes::{spec_u64_be, u64_be};
use crate::backup_image::{
    lemma_contains_add, lemma_select_names, spec_names, spec_names_retired, spec_stood,
    spec_unwritten_kept,
};
use crate::file_backup::FileBackup;
use crate::interpreter::{spec_command_bytes, spec_parse_command, Command, CommandView};
use crate::event_log::EventAppend;
use crate::replicator::{
    lemma_apply_old_chunks, spec_apply_chunk, spec_apply_chunks, spec_event_record,
    spec_parse_chunks, ReplicaState, Replicator, SyncChunkView,
};
use crate::response_frame::{ResponseFrame, ResponseFrameView};
use crate::storage::{spec_execute_reply, spec_execute_store, Executor, Storage, StoreView};
use vstd::prelude::*;

verus! {

/// The role of an instance. A writer takes mutations and logs them as events; a reader
/// takes the events that a writer pushes, and tells which it has applied last.
#[derive(Debug, Clone, Copy, PartialEq, Eq)]
pub enum InstanceType {
    Reader,
    Writer,
}

/// A store after each of `commands` ran on it, in order.
pub open spec fn spec_run_all(store: StoreView, commands: Seq<CommandView>) -> StoreView
    decreases commands.len(),
{
    if commands.len() == 0 {
        store
    } else {
        spec_execute_store(spec_run_all(store, commands.drop_last()), commands.last())
    }
}

/// What a request comes to.
pub struct Dispatch {
    /// The reply.
    pub reply: ResponseFrameView,
    /// The store after the request.
    pub store: StoreView,
    /// The last applied event after the request.
    pub last_replica_id: Option<u64>,
    /// The command bytes that go to the event log, if the request is an event.
    pub logged: Option<Seq<u8>>,
    /// The commands that go to the backup, in order.
    pub backed_up: Seq<CommandView>,
}

/// A request that changes nothing, and its reply.
pub open spec fn spec_unchanged(
    reply: ResponseFrameView,
    store: StoreView,
    last_replica_id: Option<u64>,
) -> Dispatch {
    Dispatch { reply, store, last_replica_id, logged: None, backed_up: Seq::empty() }
}

/// What a request comes to on an instance of the given role, with the given store and
/// last applied event.
///
/// A `SetValue` or `Delete` is refused by a reader. A writer runs it on the store; if it
/// succeeds it goes to the backup and to the event log. A `Get` is answered from the
/// store. A reader tells its last applied event, a writer refuses to. A `Sync` is
/// applied by either role: a dump that cannot be read is refused, else its new events
/// are applied and go to the backup. Anything else is refused.
pub open spec fn spec_dispatch(
    role: InstanceType,
    store: StoreView,
    last_replica_id: Option<u64>,
    input: Seq<u8>,
) -> Dispatch {
    spec_dispatch_command(role, store, last_replica_id, spec_parse_command(input))
}

/// What a decoded request comes to: see `spec_dispatch`.
pub open spec fn spec_dispatch_command(
    role: InstanceType,
    store: StoreView,
    last_replica_id: Option<u64>,
    command: CommandView,
) -> Dispatch {
    let refused = spec_unchanged(ResponseFrameView::ErrorInvalidCommand, store, last_replica_id);
    match command {
        CommandView::SetValue { .. } | CommandView::Delete { .. } => match role {
            InstanceType::Reader => refused,
            InstanceType::Writer => {
                let reply = spec_execute_reply(store, command);
                if reply == ResponseFrameView::Success {
                    Dispatch {
                        reply,
                        store: spec_execute_store(store, command),
                        last_replica_id,
                        logged: spec_command_bytes(command),
                        backed_up: seq![command],
                    }
                } else {
                    spec_unchanged(reply, store, last_replica_id)
                }
            },
        },
        CommandView::Get { .. } => spec_unchanged(
            spec_execute_reply(store, command),
            store,
            last_replica_id,
        ),
        CommandView::GetLastReplicationId => match role {
            InstanceType::Reader => match last_replica_id {
                Some(id) => spec_unchanged(
                    ResponseFrameView::Value(spec_u64_be(id)),
                    store,
                    last_replica_id,
                ),
                None => spec_unchanged(ResponseFrameView::ValueMissing, store, last_replica_id),
            },
            InstanceType::Writer => refused,
        },
        CommandView::Sync { dump } => match spec_parse_chunks(dump) {
            None => refused,
            Some(chunks) => {
                let end = spec_apply_chunks(
                    ReplicaState { store, last_id: last_replica_id, applied: Seq::empty() },
                    chunks,
                );
                Dispatch {
                    reply: ResponseFrameView::Success,
                    store: end.store,
                    last_replica_id: end.last_id,
                    logged: None,
                    backed_up: end.applied,
                }
            },
        },
        CommandView::Invalid => refused,
    }
}

/// The commands applied from a dump account for the store: running them on the store
/// from before gives the store after. A dump from which nothing is applied changes
/// nothing; one from which something is applied leaves a last applied event.
pub proof fn lemma_applied_commands(base: StoreView, start: ReplicaState, chunks: Seq<SyncChunkView>)
    requires
        start.store == spec_run_all(base, start.applied),
    ensures
        spec_apply_chunks(start, chunks).store == spec_run_all(
            base,
            spec_apply_chunks(start, chunks).applied,
        ),
        spec_apply_chunks(start, chunks).applied.len() >= start.applied.len(),
        spec_apply_chunks(start, chunks).applied.len() == start.applied.len()
            ==> spec_apply_chunks(start, chunks) == start,
        spec_apply_chunks(start, chunks).applied.len() > start.applied.len() ==> spec_apply_chunks(
            start,
            chunks,
        ).last_id is Some,
    decreases chunks.len(),
{
    if chunks.len() > 0 {
        lemma_applied_commands(base, start, chunks.drop_last());
        let mid = spec_apply_chunks(start, chunks.drop_last());
        let end = spec_apply_chunk(mid, chunks.last());
        if end != mid {
            assert(end.applied.drop_last() =~= mid.applied);
            assert(end.applied.last() == chunks.last().command);
        }
    }
}

/// Applying again a dump whose events are all at or below the last applied event
/// changes nothing: the reply is `Success`, and the store and the last applied event
/// are as before.
pub proof fn lemma_dispatch_old_sync(
    role: InstanceType,
    store: StoreView,
    last_replica_id: u64,
    dump: Seq<u8>,
)
    requires
        spec_parse_chunks(dump) is Some,
        forall|i: int|
            0 <= i < spec_parse_chunks(dump)->Some_0.len() ==> spec_parse_chunks(
                dump,
            )->Some_0[i].number <= last_replica_id,
    ensures
        spec_dispatch_command(role, store, Some(last_replica_id), CommandView::Sync { dump })
            == spec_unchanged(ResponseFrameView::Success, store, Some(last_replica_id)),
{
    lemma_apply_old_chunks(
        ReplicaState { store, last_id: Some(last_replica_id), applied: Seq::empty() },
        spec_parse_chunks(dump)->Some_0,
    );
}

/// What the caller is to do after a request.
pub struct Outcome {
    /// The reply to send.
    pub response: ResponseFrame,
    /// Whether the backup took in a command: its registry is to be written anew.
    pub persist_backup: bool,
    /// The names of the shards whose files are to be written anew.
    pub written: Vec<String>,
    /// The names of the shards that were split away: their files are to be deleted.
    pub retired: Vec<String>,
    /// What the request adds to the event log and its index, if it is an event: the
    /// bytes are to be appended to the two files, and the readers are due a push.
    pub event: Option<EventAppend>,
}

/// The dispatcher with all it owns.
pub struct App {
    storage: Storage,
    backup: FileBackup,
    instance_type: InstanceType,
    replicator: Replicator,
    last_replica_id: Option<u64>,
}

impl App {
    /// The role.
    pub closed spec fn role(&self) -> InstanceType {
        self.instance_type
    }

    /// What the store holds.
    pub closed spec fn store_view(&self) -> StoreView {
        self.storage@
    }

    /// Sequence number of the last event applied, if any ever was.
    pub closed spec fn last_replica_id_view(&self) -> Option<u64> {
        self.last_replica_id
    }

    /// The backup.
    pub closed spec fn backup_view(&self) -> FileBackup {
        self.backup
    }

    /// The replicator.
    pub closed spec fn replicator_view(&self) -> Replicator {
        self.replicator
    }

    /// The backup and the event log are well formed, and the backup stores what the
    /// store holds.
    pub open spec fn wf(&self) -> bool {
        &&& self.backup_view().wf()
        &&& self.replicator_view().wf()
        &&& self.backup_view().stored() == self.store_view()
    }

    /// A restart restores the store: what the backup holds, set into an empty store, is
    /// the store as it stands.
    pub proof fn lemma_restart_restores_store(&self)
        requires
            self.wf(),
        ensures
            Map::<Seq<char>, Seq<u8>>::empty().union_prefer_right(self.backup_view().stored())
                == self.store_view(),
    {
        assert(Map::<Seq<char>, Seq<u8>>::empty().union_prefer_right(self.backup_view().stored())
            =~= self.backup_view().stored());
    }

    /// Starts an instance: the store is restored from the backup.
    pub fn new(
        instance_type: InstanceType,
        last_replica_id: Option<u64>,
        backup: FileBackup,
        replicator: Replicator,
    ) -> (r: Self)
        requires
            backup.wf(),
            replicator.wf(),
        ensures
            r.wf(),
            r.role() == instance_type,
            r.last_replica_id_view() == last_replica_id,
            r.store_view() == backup.stored(),
            r.backup_view() == backup,
            r.replicator_view() == replicator,
    {
        let mut storage = Storage::new();
        backup.restore(&mut storage);
        assert(storage@ =~= backup.stored());
        App { storage, backup, instance_type, replicator, last_replica_id }
    }

    /// The store.
    pub fn storage(&self) -> (r: &Storage)
        ensures
            r@ == self.store_view(),
    {
        &self.storage
    }

    /// The backup.
    pub fn backup(&self) -> (r: &FileBackup)
        ensures
            *r == self.backup_view(),
    {
        &self.backup
    }

    /// The replicator.
    pub fn replicator(&self) -> (r: &Replicator)
        ensures
            *r == self.replicator_view(),
    {
        &self.replicator
    }

    /// The role.
    pub fn instance_type(&self) -> (r: InstanceType)
        ensures
            r == self.role(),
    {
        self.instance_type
    }

    /// Sequence number of the last event applied, if any ever was.
    pub fn last_replica_id(&self) -> (r: Option<u64>)
        ensures
            r == self.last_replica_id_view(),
    {
        self.last_replica_id
    }

    /// Whether the instance refuses mutations.
    pub fn is_read_only(&self) -> (r: bool)
        ensures
            r == (self.role() == InstanceType::Reader),
    {
        match self.instance_type {
            InstanceType::Reader => true,
            InstanceType::Writer => false,
        }
    }

    /// Applies a dump: its new events are run on the store and go to the backup.
    fn sync(&mut self, dump: &Vec<u8>) -> (r: (ResponseFrame, bool, Vec<String>, Vec<String>))
        requires
            old(self).wf(),
        ensures
            spec_unwritten_kept(
                old(self).backup_view().names(),
                old(self).backup_view().shard_views(),
                final(self).backup_view().names(),
                final(self).backup_view().shard_views(),
                spec_names(r.2@),
            ),
            spec_names_retired(
                old(self).backup_view().names(),
                final(self).backup_view().names(),
                spec_names(r.3@),
            ),

            final(self).wf(),
            final(self).role() == old(self).role(),
            final(self).replicator_view() == old(self).replicator_view(),
            ({
                let d = spec_dispatch_command(
                    old(self).role(),
                    old(self).store_view(),
                    old(self).last_replica_id_view(),
                    CommandView::Sync { dump: dump@ },
                );
                &&& r.0@ == d.reply
                &&& final(self).store_view() == d.store
                &&& final(self).last_replica_id_view() == d.last_replica_id
                &&& r.1 == (d.backed_up.len() > 0)
                &&& !r.1 ==> final(self).backup_view() == old(self).backup_view()
            }),
    {
        let restore_result = self.replicator.restore(
            &mut self.storage,
            dump.clone(),
            self.last_replica_id,
        );
        let ghost applied = restore_result.applied_view();
        proof {
            if spec_parse_chunks(dump@) is Some {
                lemma_applied_commands(
                    old(self).storage@,
                    ReplicaState {
                        store: old(self).storage@,
                        last_id: old(self).last_replica_id,
                        applied: Seq::empty(),
                    },
                    spec_parse_chunks(dump@)->Some_0,
                );
            }
            assert(applied.take(0) =~= Seq::<CommandView>::empty());
        }
        if let Some(id) = restore_result.last_event_id {
            self.last_replica_id = Some(id);
        }
        let ghost restored = self.storage@;
        let ghost last = self.last_replica_id;
        let names_before = self.backup.shard_names();
        let mut written: Vec<String> = Vec::new();
        let mut i: usize = 0;
        proof {
            self.backup.lemma_wf();
            assert forall|k: int| 0 <= k < self.backup.names().len() implies spec_stood(
                self.backup.names(),
                self.backup.shard_views(),
                #[trigger] self.backup.names()[k],
                self.backup.shard_views()[k],
            ) by {}
        }
        while i < restore_result.applied_commands.len()
            invariant
                spec_unwritten_kept(
                    old(self).backup.names(),
                    old(self).backup.shard_views(),
                    self.backup.names(),
                    self.backup.shard_views(),
                    spec_names(written@),
                ),
                i <= restore_result.applied_commands@.len(),
                applied == restore_result.applied_view(),
                self.backup.wf(),
                self.backup.stored() == spec_run_all(old(self).storage@, applied.take(i as int)),
                i == 0 ==> self.backup == old(self).backup,
                self.storage@ == restored,
                self.last_replica_id == last,
                self.instance_type == old(self).instance_type,
                self.replicator == old(self).replicator,
            decreases restore_result.applied_commands@.len() - i,
        {
            proof {
                assert(applied.take(i + 1).drop_last() =~= applied.take(i as int));
                assert(applied.take(i + 1).last() == applied[i as int]);
            }
            let ghost names = self.backup.names();
            let ghost views = self.backup.shard_views();
            let ghost before = spec_names(written@);
            proof {
                self.backup.lemma_wf();
            }
            self.backup.log(&restore_result.applied_commands[i]);
            let mut touched = self.backup.touched_names();
            let ghost marked = spec_names(touched@);
            written.append(&mut touched);
            proof {
                let all = spec_names(written@);
                assert(all =~= before + marked);
                lemma_contains_add(before, marked);
                self.backup.lemma_touched_names_cover(names, views, all);
                assert forall|k: int|
                    0 <= k < self.backup.names().len() && !all.contains(
                        #[trigger] self.backup.names()[k],
                    ) implies spec_stood(
                    old(self).backup.names(),
                    old(self).backup.shard_views(),
                    self.backup.names()[k],
                    self.backup.shard_views()[k],
                ) by {
                    assert(spec_stood(
                        names,
                        views,
                        self.backup.names()[k],
                        self.backup.shard_views()[k],
                    ));
                    let j = choose|j: int|
                        0 <= j < names.len() && (#[trigger] names[j]) == self.backup.names()[k]
                            && views[j] == self.backup.shard_views()[k];
                    assert(!before.contains(names[j]));
                }
            }
            i = i + 1;
        }
        assert(applied.take(i as int) =~= applied);
        let retired = self.backup.retired_names(&names_before);
        (restore_result.response, i > 0, written, retired)
    }

    /// Runs a `SetValue` or a `Delete` on a writer; a success goes to the backup.
    fn mutate(&mut self, cmd: &Command) -> (r: (ResponseFrame, bool, Vec<String>, Vec<String>))
        requires
            old(self).wf(),
            old(self).role() == InstanceType::Writer,
            cmd@ is SetValue || cmd@ is Delete,
        ensures
            spec_unwritten_kept(
                old(self).backup_view().names(),
                old(self).backup_view().shard_views(),
                final(self).backup_view().names(),
                final(self).backup_view().shard_views(),
                spec_names(r.2@),
            ),
            spec_names_retired(
                old(self).backup_view().names(),
                final(self).backup_view().names(),
                spec_names(r.3@),
            ),

            final(self).wf(),
            final(self).role() == old(self).role(),
            final(self).replicator_view() == old(self).replicator_view(),
            ({
                let d = spec_dispatch_command(
                    old(self).role(),
                    old(self).store_view(),
                    old(self).last_replica_id_view(),
                    cmd@,
                );
                &&& r.0@ == d.reply
                &&& final(self).store_view() == d.store
                &&& final(self).last_replica_id_view() == d.last_replica_id
                &&& r.1 == (d.backed_up.len() > 0)
                &&& !r.1 ==> final(self).backup_view() == old(self).backup_view()
            }),
    {
        let result = self.storage.execute(cmd);
        proof {
            self.backup.lemma_wf();
        }
        match &result {
            ResponseFrame::Success => {
                let names_before = self.backup.shard_names();
                self.backup.log(cmd);
                let written = self.backup.touched_names();
                let retired = self.backup.retired_names(&names_before);
                proof {
                    self.backup.lemma_touched_names_cover(
                        old(self).backup.names(),
                        old(self).backup.shard_views(),
                        spec_names(written@),
                    );
                }
                (result, true, written, retired)
            },
            _ => {
                assert(self.storage@ =~= old(self).storage@);
                proof {
                    self.lemma_backup_kept();
                }
                (result, false, Vec::new(), Vec::new())
            },
        }
    }

    /// A backup that is left alone keeps every shard, and none is split away.
    proof fn lemma_backup_kept(&self)
        requires
            self.backup_view().wf(),
        ensures
            forall|written: Seq<Seq<char>>|
                spec_unwritten_kept(
                    self.backup_view().names(),
                    self.backup_view().shard_views(),
                    self.backup_view().names(),
                    self.backup_view().shard_views(),
                    written,
                ),
            spec_names_retired(
                self.backup_view().names(),
                self.backup_view().names(),
                Seq::empty(),
            ),
    {
        self.backup.lemma_wf();
        let names = self.backup.names();
        let views = self.backup.shard_views();
        assert forall|k: int| 0 <= k < names.len() implies spec_stood(
            names,
            views,
            #[trigger] names[k],
            views[k],
        ) by {}
    }

    /// Runs a decoded request on the store and the backup.
    fn dispatch(&mut self, cmd: &Command) -> (r: (ResponseFrame, bool, Vec<String>, Vec<String>))
        requires
            old(self).wf(),
        ensures
            spec_unwritten_kept(
                old(self).backup_view().names(),
                old(self).backup_view().shard_views(),
                final(self).backup_view().names(),
                final(self).backup_view().shard_views(),
                spec_names(r.2@),
            ),
            spec_names_retired(
                old(self).backup_view().names(),
                final(self).backup_view().names(),
                spec_names(r.3@),
            ),

            final(self).wf(),
            final(self).role() == old(self).role(),
            final(self).replicator_view() == old(self).replicator_view(),
            ({
                let d = spec_dispatch_command(
                    old(self).role(),
                    old(self).store_view(),
                    old(self).last_replica_id_view(),
                    cmd@,
                );
                &&& r.0@ == d.reply
                &&& final(self).store_view() == d.store
                &&& final(self).last_replica_id_view() == d.last_replica_id
                &&& r.1 == (d.backed_up.len() > 0)
                &&& !r.1 ==> final(self).backup_view() == old(self).backup_view()
            }),
    {
        proof {
            self.lemma_backup_kept();
        }
        match cmd {
            Command::SetValue { .. } | Command::Delete { .. } => match self.instance_type {
                InstanceType::Reader => (
                    ResponseFrame::ErrorInvalidCommand,
                    false,
                    Vec::new(),
                    Vec::new(),
                ),
                InstanceType::Writer => self.mutate(cmd),
            },
            Command::Get { .. } => (self.storage.execute(cmd), false, Vec::new(), Vec::new()),
            Command::GetLastReplicationId => match self.instance_type {
                InstanceType::Reader => match self.last_replica_id {
                    Some(id) => (ResponseFrame::Value(u64_be(id)), false, Vec::new(), Vec::new()),
                    None => (ResponseFrame::ValueMissing, false, Vec::new(), Vec::new()),
                },
                InstanceType::Writer => (
                    ResponseFrame::ErrorInvalidCommand,
                    false,
                    Vec::new(),
                    Vec::new(),
                ),
            },
            Command::Sync { dump } => self.sync(dump),
            Command::Invalid => (ResponseFrame::ErrorInvalidCommand, false, Vec::new(), Vec::new()),
        }
    }

    /// Serves one request.
    pub fn execute(&mut self, input: Vec<u8>) -> (r: Outcome)
        requires
            old(self).wf(),
        ensures
            final(self).wf(),
            final(self).role() == old(self).role(),
            ({
                let d = spec_dispatch(
                    old(self).role(),
                    old(self).store_view(),
                    old(self).last_replica_id_view(),
                    input@,
                );
                let log = old(self).replicator_view();
                let log2 = final(self).replicator_view();
                &&& r.response@ == d.reply
                &&& final(self).store_view() == d.store
                &&& final(self).last_replica_id_view() == d.last_replica_id
                &&& r.persist_backup == (d.backed_up.len() > 0)
                &&& !r.persist_backup ==> final(self).backup_view() == old(self).backup_view()
                &&& match d.logged {
                    Some(bytes) => {
                        &&& r.event matches Some(added)
                        &&& added.event_bytes@ == spec_event_record(
                            bytes,
                            (log.pointers_view().len() / 8) as u64,
                        )
                        &&& added.pointer_bytes@ == spec_u64_be(log.events_view().len() as u64)
                        &&& log2.events_view() == log.events_view() + added.event_bytes@
                        &&& log2.pointers_view() == log.pointers_view() + added.pointer_bytes@
                    },
                    None => r.event is None && log2.events_view() == log.events_view()
                        && log2.pointers_view() == log.pointers_view(),
                }
            }),
            spec_names_retired(
                old(self).backup_view().names(),
                final(self).backup_view().names(),
                spec_names(r.retired@),
            ),
            spec_unwritten_kept(
                old(self).backup_view().names(),
                old(self).backup_view().shard_views(),
                final(self).backup_view().names(),
                final(self).backup_view().shard_views(),
                spec_names(r.written@),
            ),
            forall|name: Seq<char>|
                spec_names(r.written@).contains(name) ==> final(self).backup_view().names().contains(
                    name,
                ),
    {
        let cmd = Command::from(input);
        let (response, persist_backup, touched, retired) = self.dispatch(&cmd);
        let written = self.backup.present_names(&touched);
        proof {
            let names = self.backup.names();
            lemma_select_names(spec_names(touched@), names, true);
            assert forall|k: int|
                0 <= k < names.len() && !spec_names(written@).contains(
                    #[trigger] names[k],
                ) implies !spec_names(touched@).contains(names[k]) by {
                assert(names.contains(names[k]));
            }
        }
        let mut event: Option<EventAppend> = None;
        match &response {
            ResponseFrame::Success => {
                if !self.is_read_only() {
                    event = self.replicator.log(&cmd);
                }
            },
            _ => {},
        }
        Outcome { response, persist_backup, written, retired, event }
    }
}

} // verus!
