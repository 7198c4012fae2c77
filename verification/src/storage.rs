//! The in-memory store: a map from keys to opaque byte values.

use crate::interpreter::{Command, CommandView};
use crate::response_frame::{ResponseFrame, ResponseFrameView};
use vstd::hash_map::StringHashMap;
use vstd::prelude::*;

verus! {

/// What a store holds: one value for each key present.
pub type StoreView = Map<Seq<char>, Seq<u8>>;

/// The store after `key` was set to `value`.
pub open spec fn spec_set(store: StoreView, key: Seq<char>, value: Seq<u8>) -> StoreView {
    store.insert(key, value)
}

/// The value held for `key`, if any.
pub open spec fn spec_get(store: StoreView, key: Seq<char>) -> Option<Seq<u8>> {
    if store.contains_key(key) {
        Some(store[key])
    } else {
        None
    }
}

/// The store after `key` was deleted.
pub open spec fn spec_delete(store: StoreView, key: Seq<char>) -> StoreView {
    store.remove(key)
}

/// The store after a command ran on it.
pub open spec fn spec_execute_store(store: StoreView, command: CommandView) -> StoreView {
    match command {
        CommandView::SetValue { key, value } => spec_set(store, key, value),
        CommandView::Delete { key } => spec_delete(store, key),
        _ => store,
    }
}

/// The reply to a command run on `store`. Only `SetValue`, `Get` and `Delete` are the
/// store's to run; a miss on `Get` or `Delete` is reported as such, not as an error.
pub open spec fn spec_execute_reply(store: StoreView, command: CommandView) -> ResponseFrameView {
    match command {
        CommandView::SetValue { .. } => ResponseFrameView::Success,
        CommandView::Get { key } => match spec_get(store, key) {
            Some(value) => ResponseFrameView::Value(value),
            None => ResponseFrameView::ValueMissing,
        },
        CommandView::Delete { key } => if store.contains_key(key) {
            ResponseFrameView::Success
        } else {
            ResponseFrameView::ValueMissing
        },
        _ => ResponseFrameView::ErrorInvalidCommand,
    }
}

/// After a key is set, reading it gives the value set; other keys read as before.
pub proof fn lemma_get_after_set(store: StoreView, key: Seq<char>, value: Seq<u8>, other: Seq<char>)
    ensures
        spec_get(spec_set(store, key, value), key) == Some(value),
        other != key ==> spec_get(spec_set(store, key, value), other) == spec_get(store, other),
{
}

/// After a key is deleted, reading it finds nothing; other keys read as before.
pub proof fn lemma_get_after_delete(store: StoreView, key: Seq<char>, other: Seq<char>)
    ensures
        spec_get(spec_delete(store, key), key) == None::<Seq<u8>>,
        other != key ==> spec_get(spec_delete(store, key), other) == spec_get(store, other),
{
}

/// Whoever runs commands and answers them.
pub trait Executor {
    fn execute(&mut self, command: &Command) -> ResponseFrame;
}

/// Keys with their values, in memory.
pub struct Storage {
    data: StringHashMap<Vec<u8>>,
}

impl View for Storage {
    type V = StoreView;

    closed spec fn view(&self) -> StoreView {
        Map::new(|k: Seq<char>| self.data@.contains_key(k), |k: Seq<char>| self.data@[k]@)
    }
}

impl Storage {
    /// An empty store.
    pub fn new() -> (r: Self)
        ensures
            r@ == Map::<Seq<char>, Seq<u8>>::empty(),
    {
        let r = Storage { data: StringHashMap::new() };
        assert(r@ =~= Map::<Seq<char>, Seq<u8>>::empty());
        r
    }

    /// Inserts or overwrites.
    pub fn set(&mut self, key: String, value: Vec<u8>)
        ensures
            final(self)@ == spec_set(old(self)@, key@, value@),
    {
        self.data.insert(key, value);
        assert(self@ =~= spec_set(old(self)@, key@, value@));
    }

    /// The value held for `key`, if any.
    pub fn get(&self, key: String) -> (r: Option<&Vec<u8>>)
        ensures
            match spec_get(self@, key@) {
                Some(value) => r is Some && r->Some_0@ == value,
                None => r is None,
            },
    {
        self.data.get(key.as_str())
    }

    /// Removes `key`; tells whether it was present.
    pub fn delete(&mut self, key: String) -> (r: bool)
        ensures
            r == old(self)@.contains_key(key@),
            final(self)@ == spec_delete(old(self)@, key@),
    {
        let present = self.data.contains_key(key.as_str());
        self.data.remove(key.as_str());
        assert(self@ =~= spec_delete(old(self)@, key@));
        present
    }
}

impl Executor for Storage {
    /// Runs `SetValue`, `Get` and `Delete`; every other command is refused.
    fn execute(&mut self, command: &Command) -> (r: ResponseFrame)
        ensures
            final(self)@ == spec_execute_store(old(self)@, command@),
            r@ == spec_execute_reply(old(self)@, command@),
    {
        match command {
            Command::SetValue { key, value } => {
                self.set(key.clone(), value.clone());
                ResponseFrame::Success
            },
            Command::Get { key } => {
                match self.get(key.clone()) {
                    Some(v) => ResponseFrame::Value(v.clone()),
                    None => ResponseFrame::ValueMissing,
                }
            },
            Command::Delete { key } => {
                if self.delete(key.clone()) {
                    ResponseFrame::Success
                } else {
                    ResponseFrame::ValueMissing
                }
            },
            _ => ResponseFrame::ErrorInvalidCommand,
        }
    }
}

} // verus!
