//! The key-value store: a map from text keys to immutable byte strings, and a
//! handle that shares one such map between connections behind a reader-writer
//! lock.
use crate::buffer::shared_bytes;
use crate::commands::{lookup_reply, reply, Command, CommandModel};
use crate::protocol::RespType;
use bytes::Bytes;
use std::sync::Arc;
use vstd::prelude::*;
use vstd::rwlock::{RwLock, RwLockPredicate};

verus! {

/// The entries of a store, at most one per key.
pub struct Store {
    entries: Vec<(String, Bytes)>,
    contents: Ghost<Map<Seq<char>, Seq<u8>>>,
}

impl Store {
    /// No key has two entries, and the entries are exactly the map's.
    pub closed spec fn wf(&self) -> bool {
        &&& forall|i: int, j: int|
            0 <= i < j < self.entries@.len() ==> (#[trigger] self.entries@[i]).0@
                != (#[trigger] self.entries@[j]).0@
        &&& forall|i: int|
            0 <= i < self.entries@.len() ==> self.contents@.contains_key(
                (#[trigger] self.entries@[i]).0@,
            ) && self.contents@[self.entries@[i].0@] == shared_bytes(self.entries@[i].1)
        &&& forall|k: Seq<char>|
            #[trigger] self.contents@.contains_key(k) ==> exists|i: int|
                0 <= i < self.entries@.len() && (#[trigger] self.entries@[i]).0@ == k
    }

    /// The map that the store holds.
    pub closed spec fn view(&self) -> Map<Seq<char>, Seq<u8>> {
        self.contents@
    }

    /// An empty store.
    pub fn new() -> (r: Store)
        ensures
            r.wf(),
            r@ == Map::<Seq<char>, Seq<u8>>::empty(),
    {
        Store { entries: Vec::new(), contents: Ghost(Map::empty()) }
    }

    /// Where the entry for `key` stands, if there is one.
    fn position(&self, key: &String) -> (r: Option<usize>)
        requires
            self.wf(),
        ensures
            match r {
                Some(i) => i < self.entries@.len() && self.entries@[i as int].0@ == key@,
                None => !self@.contains_key(key@),
            },
    {
        let mut i: usize = 0;
        while i < self.entries.len()
            invariant
                i <= self.entries@.len(),
                forall|j: int| 0 <= j < i ==> (#[trigger] self.entries@[j]).0@ != key@,
            decreases self.entries.len() - i,
        {
            if self.entries[i].0 == *key {
                return Some(i);
            }
            i = i + 1;
        }
        None
    }

    /// Sets `key` to `value`, replacing any value it had.
    pub fn set(&mut self, key: String, value: Bytes)
        requires
            old(self).wf(),
        ensures
            final(self).wf(),
            final(self)@ == old(self)@.insert(key@, shared_bytes(value)),
    {
        let ghost k = key@;
        let ghost v = shared_bytes(value);
        match self.position(&key) {
            Some(i) => {
                self.entries[i] = (key, value);
                proof {
                    self.contents@ = self.contents@.insert(k, v);
                    assert forall|m: Seq<char>| #[trigger]
                        self.contents@.contains_key(m) implies exists|j: int|
                        0 <= j < self.entries@.len() && (#[trigger] self.entries@[j]).0@ == m by {
                        if m != k {
                            let j = choose|j: int|
                                0 <= j < old(self).entries@.len() && (#[trigger] old(
                                    self,
                                ).entries@[j]).0@ == m;
                            assert(self.entries@[j] == old(self).entries@[j]);
                        } else {
                            assert(self.entries@[i as int].0@ == m);
                        }
                    }
                }
            },
            None => {
                self.entries.push((key, value));
                proof {
                    self.contents@ = self.contents@.insert(k, v);
                    let n = old(self).entries@.len();
                    assert(self.entries@[n as int].0@ == k);
                    assert forall|m: Seq<char>| #[trigger]
                        self.contents@.contains_key(m) implies exists|j: int|
                        0 <= j < self.entries@.len() && (#[trigger] self.entries@[j]).0@ == m by {
                        if m != k {
                            let j = choose|j: int|
                                0 <= j < old(self).entries@.len() && (#[trigger] old(
                                    self,
                                ).entries@[j]).0@ == m;
                            assert(self.entries@[j] == old(self).entries@[j]);
                        }
                    }
                }
            },
        }
    }

    /// The value that `key` has, if any.
    pub fn get(&self, key: &str) -> (r: Option<Bytes>)
        requires
            self.wf(),
        ensures
            match r {
                Some(v) => self@.contains_key(key@) && shared_bytes(v) == self@[key@],
                None => !self@.contains_key(key@),
            },
    {
        let owned = key.to_owned();
        match self.position(&owned) {
            Some(i) => Some(self.entries[i].1.clone()),
            None => None,
        }
    }

    /// Removes `key`; says whether it had a value.
    pub fn del(&mut self, key: &str) -> (r: bool)
        requires
            old(self).wf(),
        ensures
            final(self).wf(),
            r == old(self)@.contains_key(key@),
            final(self)@ == old(self)@.remove(key@),
    {
        let owned = key.to_owned();
        match self.position(&owned) {
            Some(i) => {
                self.entries.remove(i);
                proof {
                    let k = key@;
                    self.contents@ = self.contents@.remove(k);
                    let before = old(self).entries@;
                    assert forall|j: int| 0 <= j < self.entries@.len() implies #[trigger] self.entries@[j]
                        == before[if j < i {
                        j
                    } else {
                        j + 1
                    }] by {}
                    assert forall|m: Seq<char>| #[trigger]
                        self.contents@.contains_key(m) implies exists|j: int|
                        0 <= j < self.entries@.len() && (#[trigger] self.entries@[j]).0@ == m by {
                        let j = choose|j: int|
                            0 <= j < before.len() && (#[trigger] before[j]).0@ == m;
                        if j < i {
                            assert(self.entries@[j] == before[j]);
                        } else {
                            assert(j != i);
                            assert(self.entries@[j - 1] == before[j]);
                        }
                    }
                }
                true
            },
            None => {
                assert(old(self)@.remove(key@) =~= old(self)@);
                false
            },
        }
    }
}

/// One change to the map of a store, as `Store::set` and `Store::del` make it.
pub enum StoreOp {
    Put(Seq<char>, Seq<u8>),
    Remove(Seq<char>),
}

impl StoreOp {
    /// The key that the change is about.
    pub open spec fn key(self) -> Seq<char> {
        match self {
            StoreOp::Put(k, _) => k,
            StoreOp::Remove(k) => k,
        }
    }
}

/// The map after one change.
pub open spec fn apply_op(m: Map<Seq<char>, Seq<u8>>, op: StoreOp) -> Map<Seq<char>, Seq<u8>> {
    match op {
        StoreOp::Put(k, v) => m.insert(k, v),
        StoreOp::Remove(k) => m.remove(k),
    }
}

/// The map after a run of changes, first to last.
pub open spec fn apply_ops(m: Map<Seq<char>, Seq<u8>>, ops: Seq<StoreOp>) -> Map<
    Seq<char>,
    Seq<u8>,
>
    decreases ops.len(),
{
    if ops.len() == 0 {
        m
    } else {
        apply_op(apply_ops(m, ops.drop_last()), ops.last())
    }
}

/// Writers on a shared store take the lock one at a time, so their changes
/// take effect in some order, one whole change after another. Whatever that
/// order, a store that started empty holds for a key either nothing or a value
/// that one of the puts wrote, never a mix; and when the last change to a key
/// is a put, the key holds exactly that put's value.
pub proof fn lemma_values_come_from_puts(ops: Seq<StoreOp>, k: Seq<char>)
    ensures
        apply_ops(Map::empty(), ops).contains_key(k) ==> exists|i: int|
            0 <= i < ops.len() && ops[i] == StoreOp::Put(k, apply_ops(Map::empty(), ops)[k]),
        forall|i: int|
            0 <= i < ops.len() && (#[trigger] ops[i]) is Put && ops[i].key() == k && (forall|j: int|
                i < j < ops.len() ==> (#[trigger] ops[j]).key() != k) ==> apply_ops(
                Map::empty(),
                ops,
            ).contains_key(k) && apply_ops(Map::empty(), ops)[k] == ops[i]->Put_1,
    decreases ops.len(),
{
    if ops.len() > 0 {
        let before = ops.drop_last();
        lemma_values_come_from_puts(before, k);
        let m = apply_ops(Map::empty(), before);
        let last = ops.last();
        if last.key() != k {
            if m.contains_key(k) {
                let i = choose|i: int| 0 <= i < before.len() && before[i] == StoreOp::Put(k, m[k]);
                assert(ops[i] == before[i]);
            }
            assert forall|i: int|
                0 <= i < ops.len() && (#[trigger] ops[i]) is Put && ops[i].key() == k && (forall|
                    j: int,
                | i < j < ops.len() ==> (#[trigger] ops[j]).key() != k) implies apply_ops(
                Map::empty(),
                ops,
            ).contains_key(k) && apply_ops(Map::empty(), ops)[k] == ops[i]->Put_1 by {
                assert(i < ops.len() - 1);
                assert(before[i] == ops[i]);
                assert forall|j: int| i < j < before.len() implies (#[trigger] before[j]).key()
                    != k by {
                    assert(before[j] == ops[j]);
                }
            }
        } else if last is Put {
            assert(ops[ops.len() - 1] == last);
        }
    }
}

/// What the lock around a shared store keeps true of it between holders.
pub struct WellFormed;

impl RwLockPredicate<Store> for WellFormed {
    open spec fn inv(self, s: Store) -> bool {
        s.wf()
    }
}

/// A handle on one store shared by many holders. Cloning the handle shares
/// the store; writers take the lock alone, readers together.
#[derive(Clone)]
pub struct Db {
    shared: Arc<RwLock<Store, WellFormed>>,
}

impl Db {
    /// A handle on a new, empty store.
    pub fn new() -> (r: Db) {
        Db { shared: Arc::new(RwLock::new(Store::new(), Ghost(WellFormed))) }
    }

    /// Sets `key` to `value` while holding the lock alone.
    pub fn set(&self, key: String, value: Bytes) {
        let (mut store, handle) = self.shared.acquire_write();
        store.set(key, value);
        handle.release_write(store);
    }

    /// The value of `key` at the moment the read lock is held.
    pub fn get(&self, key: &str) -> (r: Option<Bytes>) {
        let handle = self.shared.acquire_read();
        let found = handle.borrow().get(key);
        handle.release_read();
        found
    }

    /// Runs a command on the shared store: a lookup under the read lock, any
    /// other command under the write lock, so that each takes effect whole,
    /// between the commands of other holders. What a lookup finds depends on
    /// those other holders.
    pub fn run(&self, cmd: Command) -> (r: RespType)
        ensures
            match cmd@ {
                CommandModel::Get(_) => exists|found: Option<Seq<u8>>| r@ == reply(cmd@, found),
                _ => r@ == reply(cmd@, None),
            },
    {
        let ghost model = cmd@;
        match cmd {
            Command::Get(key) => {
                let handle = self.shared.acquire_read();
                let found = handle.borrow().get(key.as_str());
                handle.release_read();
                let r = lookup_reply(found);
                assert(r@ == reply(model, crate::commands::found_bytes(found)));
                r
            },
            other => {
                let (mut store, handle) = self.shared.acquire_write();
                let r = other.execute(&mut store);
                handle.release_write(store);
                r
            },
        }
    }

    /// Removes `key` while holding the lock alone; says whether it had a value.
    pub fn del(&self, key: &str) -> (r: bool) {
        let (mut store, handle) = self.shared.acquire_write();
        let removed = store.del(key);
        handle.release_write(store);
        removed
    }
}

} // verus!
