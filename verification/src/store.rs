//! The history store: a content-addressed set of clipboard entries with
//! deduplication, pinning, LRU eviction and text search.
//!
//! The store lives in memory and is the authority on what the daemon knows;
//! a caller that wants the history to survive restarts mirrors the mutations
//! it makes here into a durable copy and reloads them on startup.

use vstd::prelude::*;

verus! {

use crate::text::{contains_ci, contains_ci_exec, str_chars};
use crate::types::{ContentType, EntryV, HistoryEntry};

/// One stored entry: the history metadata together with its raw bytes.
pub struct StoredEntry {
    pub id: i64,
    pub content_hash: String,
    pub content_type: ContentType,
    pub mime_type: String,
    pub preview: String,
    pub bytes: Vec<u8>,
    pub byte_size: u64,
    pub created_at: i64,
    pub last_used_at: i64,
    pub use_count: u64,
    pub pinned: bool,
}

/// The mathematical view of a stored entry.
pub struct StoredEntryV {
    pub id: i64,
    pub content_hash: Seq<char>,
    pub content_type: ContentType,
    pub mime_type: Seq<char>,
    pub preview: Seq<char>,
    pub bytes: Seq<u8>,
    pub byte_size: u64,
    pub created_at: i64,
    pub last_used_at: i64,
    pub use_count: u64,
    pub pinned: bool,
}

impl View for StoredEntry {
    type V = StoredEntryV;

    open spec fn view(&self) -> StoredEntryV {
        StoredEntryV {
            id: self.id,
            content_hash: self.content_hash@,
            content_type: self.content_type,
            mime_type: self.mime_type@,
            preview: self.preview@,
            bytes: self.bytes@,
            byte_size: self.byte_size,
            created_at: self.created_at,
            last_used_at: self.last_used_at,
            use_count: self.use_count,
            pinned: self.pinned,
        }
    }
}

impl DeepView for StoredEntry {
    type V = StoredEntryV;

    open spec fn deep_view(&self) -> StoredEntryV {
        self.view()
    }
}

/// The listing order: by creation time, ties by id.  The store keeps its
/// entries ascending in this order, so the newest entry sits at the end.
pub open spec fn ca_lt(a: StoredEntryV, b: StoredEntryV) -> bool {
    a.created_at < b.created_at || (a.created_at == b.created_at && a.id < b.id)
}

/// The eviction order: by last use, ties by id.  The sweep removes the least
/// elements of this order among the non-pinned entries.
pub open spec fn lu_lt(a: StoredEntryV, b: StoredEntryV) -> bool {
    a.last_used_at < b.last_used_at || (a.last_used_at == b.last_used_at && a.id < b.id)
}

/// Well-formedness of one entry: its stored size equals the length of its
/// bytes, it was used at least once, and never before it was created.
pub open spec fn wf_entry(e: StoredEntryV) -> bool {
    &&& e.byte_size == e.bytes.len()
    &&& e.created_at <= e.last_used_at
    &&& e.use_count >= 1
}

/// Well-formedness of the store: every entry is well-formed with an id the
/// counter has passed, ids and content hashes are unique, and the entries are
/// sorted in listing order.
pub open spec fn wf_entries(es: Seq<StoredEntryV>, next_id: int) -> bool {
    &&& forall|i: int| 0 <= i < es.len() ==> wf_entry(#[trigger] es[i])
    &&& forall|i: int| 0 <= i < es.len() ==> 1 <= (#[trigger] es[i]).id < next_id
    &&& forall|i: int, j: int| 0 <= i < j < es.len() ==> (#[trigger] es[i]).id != (
    #[trigger] es[j]).id
    &&& forall|i: int, j: int|
        0 <= i < j < es.len() ==> (#[trigger] es[i]).content_hash != (#[trigger] es[j]).content_hash
    &&& forall|i: int, j: int| 0 <= i < j < es.len() ==> ca_lt(#[trigger] es[i], #[trigger] es[j])
}

/// The history store.
pub struct Database {
    entries: Vec<StoredEntry>,
    next_id: i64,
}

impl View for Database {
    type V = Seq<StoredEntryV>;

    closed spec fn view(&self) -> Seq<StoredEntryV> {
        self.entries.deep_view()
    }
}

/// Whether the store holds an entry with the given id.
pub open spec fn has_id(es: Seq<StoredEntryV>, id: i64) -> bool {
    exists|i: int| 0 <= i < es.len() && (#[trigger] es[i]).id == id
}

/// Whether the store holds an entry with the given content hash.
pub open spec fn has_hash(es: Seq<StoredEntryV>, h: Seq<char>) -> bool {
    exists|i: int| 0 <= i < es.len() && (#[trigger] es[i]).content_hash == h
}

/// The use count after one more use: it saturates rather than wrap.
pub open spec fn bumped(n: u64) -> u64 {
    if n < u64::MAX {
        (n + 1) as u64
    } else {
        n
    }
}

/// The last-used time after a touch at `now`: a touch never moves it back.
pub open spec fn touched_at(prev: i64, now: i64) -> i64 {
    if now > prev {
        now
    } else {
        prev
    }
}

/// The view of a freshly inserted entry.
pub open spec fn new_entry_v(
    id: i64,
    hash: Seq<char>,
    content_type: ContentType,
    mime_type: Seq<char>,
    preview: Seq<char>,
    bytes: Seq<u8>,
    now: i64,
) -> StoredEntryV {
    StoredEntryV {
        id,
        content_hash: hash,
        content_type,
        mime_type,
        preview,
        bytes,
        byte_size: bytes.len() as u64,
        created_at: now,
        last_used_at: now,
        use_count: 1,
        pinned: false,
    }
}

/// Whether `new_es` is `old_es` with `e` inserted at some position.
pub open spec fn inserted_somewhere(
    old_es: Seq<StoredEntryV>,
    new_es: Seq<StoredEntryV>,
    e: StoredEntryV,
) -> bool {
    exists|k: int| 0 <= k <= old_es.len() && new_es =~= #[trigger] old_es.insert(k, e)
}

/// The view of an entry after a touch at `now`.
pub open spec fn touched(e: StoredEntryV, now: i64) -> StoredEntryV {
    StoredEntryV {
        last_used_at: touched_at(e.last_used_at, now),
        use_count: bumped(e.use_count),
        ..e
    }
}

impl Database {
    /// Well-formedness of the store.
    pub closed spec fn wf(&self) -> bool {
        &&& wf_entries(self@, self.next_id as int)
        &&& self.next_id >= 1
    }

    /// The value the next inserted entry's id will take.
    pub closed spec fn spec_next_id(&self) -> int {
        self.next_id as int
    }

    /// An empty store.
    pub fn new() -> (db: Database)
        ensures
            db.wf(),
            db@ =~= Seq::<StoredEntryV>::empty(),
            db.spec_next_id() == 1,
    {
        let db = Database { entries: Vec::new(), next_id: 1 };
        proof {
            assert(db@ =~= Seq::<StoredEntryV>::empty());
        }
        db
    }

    /// Start the id counter at `next_id`; for reloading a store whose highest
    /// id a durable copy remembers.
    pub fn new_with_next_id(next_id: i64) -> (db: Database)
        requires
            next_id >= 1,
        ensures
            db.wf(),
            db@ =~= Seq::<StoredEntryV>::empty(),
            db.spec_next_id() == next_id,
    {
        let db = Database { entries: Vec::new(), next_id };
        proof {
            assert(db@ =~= Seq::<StoredEntryV>::empty());
        }
        db
    }

    /// The number of entries.
    pub fn count_entries(&self) -> (n: u64)
        ensures
            n == self@.len(),
    {
        let n = self.entries.len();
        assert(n == self@.len());
        n as u64
    }

    /// Find an entry by its content hash.
    pub fn find_by_hash(&self, hash: &str) -> (r: Option<i64>)
        ensures
            match r {
                Some(id) => exists|i: int|
                    0 <= i < self@.len() && (#[trigger] self@[i]).content_hash == hash@
                        && self@[i].id == id,
                None => !has_hash(self@, hash@),
            },
    {
        let h = hash.to_owned();
        let n = self.entries.len();
        let mut i: usize = 0;
        while i < n
            invariant
                0 <= i <= n,
                n == self@.len(),
                h@ == hash@,
                forall|j: int| 0 <= j < i ==> (#[trigger] self@[j]).content_hash != hash@,
            decreases n - i,
        {
            if self.entries[i].content_hash == h {
                assert(self@[i as int].content_hash == hash@);
                return Some(self.entries[i].id);
            }
            i += 1;
        }
        None
    }

    /// The index of the entry with the given id, if any.
    fn index_of_id(&self, id: i64) -> (r: Option<usize>)
        ensures
            match r {
                Some(k) => 0 <= k < self@.len() && self@[k as int].id == id,
                None => !has_id(self@, id),
            },
    {
        let n = self.entries.len();
        let mut i: usize = 0;
        while i < n
            invariant
                0 <= i <= n,
                n == self@.len(),
                forall|j: int| 0 <= j < i ==> (#[trigger] self@[j]).id != id,
            decreases n - i,
        {
            if self.entries[i].id == id {
                return Some(i);
            }
            i += 1;
        }
        None
    }

    /// Touch the entry at index `k`: move `last_used_at` forward to `now` and
    /// count one more use.
    fn touch_at(&mut self, k: usize, now: i64)
        requires
            old(self).wf(),
            k < old(self)@.len(),
        ensures
            final(self).wf(),
            final(self)@ =~= old(self)@.update(k as int, touched(old(self)@[k as int], now)),
            final(self).spec_next_id() == old(self).spec_next_id(),
    {
        let ghost before = self@;
        let mut e = self.entries.remove(k);
        if now > e.last_used_at {
            e.last_used_at = now;
        }
        if e.use_count < u64::MAX {
            e.use_count = e.use_count + 1;
        }
        assert(e@ == touched(before[k as int], now));
        self.entries.insert(k, e);
        proof {
            assert(self@ =~= before.update(k as int, touched(before[k as int], now)));
            let es = self@;
            assert forall|i: int, j: int| 0 <= i < j < es.len() implies ca_lt(
                #[trigger] es[i],
                #[trigger] es[j],
            ) by {
                assert(es[i].created_at == before[i].created_at && es[i].id == before[i].id);
                assert(es[j].created_at == before[j].created_at && es[j].id == before[j].id);
                assert(ca_lt(before[i], before[j]));
            }
        }
    }

    /// Touch the entry with the given content hash, if present: set its last
    /// use to `now` (never moving it back) and count one more use.
    pub fn touch_by_hash(&mut self, hash: &str, now: i64)
        requires
            old(self).wf(),
        ensures
            final(self).wf(),
            final(self).spec_next_id() == old(self).spec_next_id(),
            !has_hash(old(self)@, hash@) ==> final(self)@ == old(self)@,
            has_hash(old(self)@, hash@) ==> exists|k: int|
                0 <= k < old(self)@.len() && (#[trigger] old(self)@[k]).content_hash == hash@
                    && final(self)@ =~= old(self)@.update(k, touched(old(self)@[k], now)),
    {
        let h = hash.to_owned();
        let n = self.entries.len();
        let mut i: usize = 0;
        while i < n
            invariant
                0 <= i <= n,
                n == self@.len(),
                h@ == hash@,
                self.wf(),
                self@ == old(self)@,
                self.spec_next_id() == old(self).spec_next_id(),
                forall|j: int| 0 <= j < i ==> (#[trigger] self@[j]).content_hash != hash@,
            decreases n - i,
        {
            if self.entries[i].content_hash == h {
                assert(self@[i as int].content_hash == hash@);
                self.touch_at(i, now);
                assert(0 <= i < old(self)@.len() && old(self)@[i as int].content_hash == hash@);
                return ;
            }
            i += 1;
        }
        assert(!has_hash(self@, hash@));
    }

    /// Touch the entry with the given id, if present.
    pub fn touch_entry(&mut self, id: i64, now: i64)
        requires
            old(self).wf(),
        ensures
            final(self).wf(),
            final(self).spec_next_id() == old(self).spec_next_id(),
            !has_id(old(self)@, id) ==> final(self)@ == old(self)@,
            has_id(old(self)@, id) ==> exists|k: int|
                0 <= k < old(self)@.len() && (#[trigger] old(self)@[k]).id == id && final(self)@
                    =~= old(self)@.update(k, touched(old(self)@[k], now)),
    {
        match self.index_of_id(id) {
            Some(k) => {
                self.touch_at(k, now);
                assert(old(self)@[k as int].id == id);
            },
            None => {},
        }
    }

    /// Insert a new entry.  The caller has checked that no entry with this
    /// content hash exists.  Returns the new entry's id, or `None` in the
    /// (unreachable in practice) case that the id space is exhausted.
    pub fn insert_entry(
        &mut self,
        hash: String,
        content_type: ContentType,
        mime_type: String,
        preview: String,
        content: Vec<u8>,
        now: i64,
    ) -> (r: Option<i64>)
        requires
            old(self).wf(),
            !has_hash(old(self)@, hash@),
            content@.len() <= u64::MAX,
        ensures
            final(self).wf(),
            match r {
                Some(id) => {
                    &&& old(self).spec_next_id() < i64::MAX
                    &&& id == old(self).spec_next_id()
                    &&& final(self).spec_next_id() == old(self).spec_next_id() + 1
                    &&& inserted_somewhere(
                        old(self)@,
                        final(self)@,
                        new_entry_v(
                            id,
                            hash@,
                            content_type,
                            mime_type@,
                            preview@,
                            content@,
                            now,
                        ),
                    )
                },
                None => {
                    &&& old(self).spec_next_id() == i64::MAX
                    &&& final(self)@ == old(self)@
                },
            },
    {
        if self.next_id == i64::MAX {
            return None;
        }
        let id = self.next_id;
        self.next_id = self.next_id + 1;
        let byte_size = content.len() as u64;
        let e = StoredEntry {
            id,
            content_hash: hash,
            content_type,
            mime_type,
            preview,
            bytes: content,
            byte_size,
            created_at: now,
            last_used_at: now,
            use_count: 1,
            pinned: false,
        };
        let ghost ev = e@;
        let ghost before = self@;
        assert(ev == new_entry_v(id, ev.content_hash, content_type, ev.mime_type, ev.preview, ev.bytes, now));
        let n = self.entries.len();
        let mut k: usize = n;
        while k > 0 && self.entries[k - 1].created_at > now
            invariant
                0 <= k <= n,
                n == self@.len(),
                self@ == before,
                forall|j: int| k <= j < n ==> (#[trigger] before[j]).created_at > now,
            decreases k,
        {
            k -= 1;
        }
        assert(k > 0 ==> before[k - 1].created_at <= now);
        self.entries.insert(k, e);
        proof {
            assert(self@ =~= before.insert(k as int, ev));
            let es = self@;
            assert forall|i: int, j: int| 0 <= i < j < es.len() implies ca_lt(
                #[trigger] es[i],
                #[trigger] es[j],
            ) by {
                if i < k && j == k {
                    assert(es[i] == before[i]);
                    assert(before[i].created_at <= now) by {
                        if i < k - 1 {
                            assert(ca_lt(before[i], before[k - 1]));
                        }
                    }
                    assert(es[i].id < id);
                } else if i == k && j > k {
                    assert(es[j] == before[j - 1]);
                    assert(before[j - 1].created_at > now);
                } else if i < k && j > k {
                    assert(es[i] == before[i] && es[j] == before[j - 1]);
                    assert(ca_lt(before[i], before[j - 1]));
                } else if i < j < k {
                    assert(es[i] == before[i] && es[j] == before[j]);
                    assert(ca_lt(before[i], before[j]));
                } else {
                    assert(k < i < j);
                    assert(es[i] == before[i - 1] && es[j] == before[j - 1]);
                    assert(ca_lt(before[i - 1], before[j - 1]));
                }
            }
            assert forall|i: int, j: int| 0 <= i < j < es.len() implies (#[trigger] es[i]).id != (
            #[trigger] es[j]).id by {
                if i != k && j != k {
                    let i0 = if i < k {
                        i
                    } else {
                        i - 1
                    };
                    let j0 = if j < k {
                        j
                    } else {
                        j - 1
                    };
                    assert(es[i] == before[i0] && es[j] == before[j0]);
                }
            }
            assert forall|i: int, j: int|
                0 <= i < j < es.len() implies (#[trigger] es[i]).content_hash != (
            #[trigger] es[j]).content_hash by {
                if i != k && j != k {
                    let i0 = if i < k {
                        i
                    } else {
                        i - 1
                    };
                    let j0 = if j < k {
                        j
                    } else {
                        j - 1
                    };
                    assert(es[i] == before[i0] && es[j] == before[j0]);
                } else if i == k {
                    assert(es[j] == before[j - 1]);
                    assert(!has_hash(before, ev.content_hash));
                } else {
                    assert(es[i] == before[i]);
                    assert(!has_hash(before, ev.content_hash));
                }
            }
        }
        Some(id)
    }

    /// Put back one entry of a durable copy of the store, with all its
    /// bookkeeping fields.  The caller has checked that the id and hash are
    /// fresh, that the id is below the counter, and that the fields are
    /// plausible (the copy was written by this store, so they are).
    pub fn restore_entry(&mut self, e: StoredEntry)
        requires
            old(self).wf(),
            !has_id(old(self)@, e.id),
            !has_hash(old(self)@, e@.content_hash),
            1 <= e.id < old(self).spec_next_id(),
            e.byte_size == e.bytes@.len(),
            e.created_at <= e.last_used_at,
            e.use_count >= 1,
        ensures
            final(self).wf(),
            final(self).spec_next_id() == old(self).spec_next_id(),
            inserted_somewhere(old(self)@, final(self)@, e@),
    {
        let ghost ev = e@;
        let ghost before = self@;
        let n = self.entries.len();
        let mut k: usize = n;
        while k > 0 && (e.created_at < self.entries[k - 1].created_at || (e.created_at
            == self.entries[k - 1].created_at && e.id < self.entries[k - 1].id))
            invariant
                0 <= k <= n,
                n == self@.len(),
                self@ == before,
                e@ == ev,
                forall|j: int| k <= j < n ==> ca_lt(ev, #[trigger] before[j]),
            decreases k,
        {
            k -= 1;
        }
        proof {
            if k > 0 {
                assert(!ca_lt(ev, before[k - 1]));
                assert(before[k - 1].id != ev.id) by {
                    if before[k - 1].id == ev.id {
                        assert(has_id(before, ev.id));
                    }
                }
                assert(ca_lt(before[k - 1], ev));
            }
        }
        self.entries.insert(k, e);
        proof {
            assert(self@ =~= before.insert(k as int, ev));
            let es = self@;
            assert forall|i: int, j: int| 0 <= i < j < es.len() implies ca_lt(
                #[trigger] es[i],
                #[trigger] es[j],
            ) by {
                if i < k && j == k {
                    assert(es[i] == before[i]);
                    if i < k - 1 {
                        assert(ca_lt(before[i], before[k - 1]));
                    }
                    assert(ca_lt(before[i], ev));
                } else if i == k && j > k {
                    assert(es[j] == before[j - 1]);
                    assert(ca_lt(ev, before[j - 1]));
                } else if i < k && j > k {
                    assert(es[i] == before[i] && es[j] == before[j - 1]);
                    assert(ca_lt(before[i], before[j - 1]));
                } else if i < j < k {
                    assert(es[i] == before[i] && es[j] == before[j]);
                    assert(ca_lt(before[i], before[j]));
                } else {
                    assert(k < i < j);
                    assert(es[i] == before[i - 1] && es[j] == before[j - 1]);
                    assert(ca_lt(before[i - 1], before[j - 1]));
                }
            }
            assert forall|i: int, j: int| 0 <= i < j < es.len() implies (#[trigger] es[i]).id != (
            #[trigger] es[j]).id && es[i].content_hash != es[j].content_hash by {
                if i != k && j != k {
                    let i0 = if i < k {
                        i
                    } else {
                        i - 1
                    };
                    let j0 = if j < k {
                        j
                    } else {
                        j - 1
                    };
                    assert(es[i] == before[i0] && es[j] == before[j0]);
                } else if i == k {
                    assert(es[j] == before[j - 1]);
                    assert(!has_id(before, ev.id) && !has_hash(before, ev.content_hash));
                } else {
                    assert(es[i] == before[i]);
                    assert(!has_id(before, ev.id) && !has_hash(before, ev.content_hash));
                }
            }
        }
    }

    /// The bookkeeping fields of the entry with the given id: its creation
    /// time, last use, use count, and pinned flag.
    pub fn entry_stats(&self, id: i64) -> (r: Option<(i64, i64, u64, bool)>)
        ensures
            match r {
                Some((created_at, last_used_at, use_count, pinned)) => exists|i: int|
                    0 <= i < self@.len() && (#[trigger] self@[i]).id == id && self@[i].created_at
                        == created_at && self@[i].last_used_at == last_used_at && self@[i].use_count
                        == use_count && self@[i].pinned == pinned,
                None => !has_id(self@, id),
            },
    {
        match self.index_of_id(id) {
            Some(k) => {
                let e = &self.entries[k];
                Some((e.created_at, e.last_used_at, e.use_count, e.pinned))
            },
            None => None,
        }
    }

    /// The content of the entry with the given id: its MIME type and bytes.
    pub fn get_content(&self, id: i64) -> (r: Option<(String, Vec<u8>)>)
        ensures
            match r {
                Some((mime, bytes)) => exists|i: int|
                    0 <= i < self@.len() && (#[trigger] self@[i]).id == id && self@[i].mime_type
                        == mime@ && self@[i].bytes == bytes@,
                None => !has_id(self@, id),
            },
    {
        match self.index_of_id(id) {
            Some(k) => {
                let e = &self.entries[k];
                let mut bytes: Vec<u8> = Vec::new();
                let m = e.bytes.len();
                let mut i: usize = 0;
                while i < m
                    invariant
                        0 <= i <= m,
                        m == e.bytes@.len(),
                        bytes@ == e.bytes@.subrange(0, i as int),
                    decreases m - i,
                {
                    bytes.push(e.bytes[i]);
                    assert(bytes@ =~= e.bytes@.subrange(0, i as int + 1));
                    i += 1;
                }
                assert(bytes@ =~= e.bytes@);
                Some((e.mime_type.clone(), bytes))
            },
            None => None,
        }
    }

    /// Delete the entry with the given id, with its content.  Returns whether
    /// an entry existed.
    pub fn delete_entry(&mut self, id: i64) -> (r: bool)
        requires
            old(self).wf(),
        ensures
            final(self).wf(),
            final(self).spec_next_id() == old(self).spec_next_id(),
            r == has_id(old(self)@, id),
            r ==> exists|k: int|
                0 <= k < old(self)@.len() && (#[trigger] old(self)@[k]).id == id && final(self)@
                    =~= old(self)@.remove(k),
            !r ==> final(self)@ == old(self)@,
    {
        match self.index_of_id(id) {
            Some(k) => {
                let ghost before = self@;
                self.entries.remove(k);
                proof {
                    assert(self@ =~= before.remove(k as int));
                    lemma_wf_remove(before, old(self).spec_next_id(), k as int);
                    assert(has_id(before, id));
                }
                true
            },
            None => false,
        }
    }

    /// Pin or unpin the entry with the given id.  Returns whether an entry
    /// existed.
    pub fn set_pinned(&mut self, id: i64, pinned: bool) -> (r: bool)
        requires
            old(self).wf(),
        ensures
            final(self).wf(),
            final(self).spec_next_id() == old(self).spec_next_id(),
            r == has_id(old(self)@, id),
            r ==> exists|k: int|
                0 <= k < old(self)@.len() && (#[trigger] old(self)@[k]).id == id && final(self)@
                    =~= old(self)@.update(k, StoredEntryV { pinned, ..old(self)@[k] }),
            !r ==> final(self)@ == old(self)@,
    {
        match self.index_of_id(id) {
            Some(k) => {
                let ghost before = self@;
                let mut e = self.entries.remove(k);
                e.pinned = pinned;
                self.entries.insert(k, e);
                proof {
                    assert(self@ =~= before.update(
                        k as int,
                        StoredEntryV { pinned, ..before[k as int] },
                    ));
                    let es = self@;
                    assert forall|i: int, j: int| 0 <= i < j < es.len() implies ca_lt(
                        #[trigger] es[i],
                        #[trigger] es[j],
                    ) by {
                        assert(es[i].created_at == before[i].created_at && es[i].id
                            == before[i].id);
                        assert(es[j].created_at == before[j].created_at && es[j].id
                            == before[j].id);
                        assert(ca_lt(before[i], before[j]));
                    }
                }
                true
            },
            None => false,
        }
    }
}

// ---------------------------------------------------------------------------
// Listing and search.
// ---------------------------------------------------------------------------

/// Whether an entry's preview matches the search query: every entry matches
/// an absent or empty query, else the query must occur in the preview,
/// compared case-insensitively.
pub open spec fn query_matches(e: StoredEntryV, q: Option<Seq<char>>) -> bool {
    match q {
        Some(s) => s.len() == 0 || contains_ci(e.preview, s),
        None => true,
    }
}

/// The matching entries among the first `i`, newest first.
pub open spec fn hist_list(es: Seq<StoredEntryV>, q: Option<Seq<char>>, i: int) -> Seq<
    StoredEntryV,
>
    decreases i,
{
    if i <= 0 || i > es.len() {
        Seq::empty()
    } else {
        (if query_matches(es[i - 1], q) {
            seq![es[i - 1]]
        } else {
            Seq::empty()
        }) + hist_list(es, q, i - 1)
    }
}

/// The wire views of a sequence of stored entries.
pub open spec fn to_hist_all(es: Seq<StoredEntryV>) -> Seq<EntryV> {
    es.map_values(|e: StoredEntryV| to_hist(e))
}

/// The wire view of a stored entry: its metadata without the bytes.
pub open spec fn to_hist(e: StoredEntryV) -> EntryV {
    EntryV {
        id: e.id,
        content_type: e.content_type,
        mime_type: e.mime_type,
        preview: e.preview,
        byte_size: e.byte_size,
        created_at: e.created_at,
        pinned: e.pinned,
        thumbnail: None,
    }
}

/// The page of a listing: at most `limit` elements starting at `offset`.
pub open spec fn spec_page(l: Seq<EntryV>, limit: u32, offset: u32) -> Seq<EntryV> {
    if offset >= l.len() {
        Seq::empty()
    } else if offset + limit <= l.len() {
        l.subrange(offset as int, offset as int + limit as int)
    } else {
        l.subrange(offset as int, l.len() as int)
    }
}

/// The normalized search query: an empty one filters nothing.
pub open spec fn norm_query(s: Option<Seq<char>>) -> Option<Seq<char>> {
    match s {
        Some(x) => if x.len() == 0 {
            None
        } else {
            Some(x)
        },
        None => None,
    }
}

/// The wire form of a stored entry: its metadata, without the bytes.
fn hist_of(e: &StoredEntry) -> (r: HistoryEntry)
    ensures
        r@ == to_hist(e@),
{
    HistoryEntry {
        id: e.id,
        content_type: e.content_type,
        mime_type: e.mime_type.clone(),
        preview: e.preview.clone(),
        byte_size: e.byte_size,
        created_at: e.created_at,
        pinned: e.pinned,
        thumbnail: None,
    }
}

/// A field-for-field copy of a wire entry.
fn copy_hist(e: &HistoryEntry) -> (r: HistoryEntry)
    ensures
        r@ == e@,
{
    HistoryEntry {
        id: e.id,
        content_type: e.content_type,
        mime_type: e.mime_type.clone(),
        preview: e.preview.clone(),
        byte_size: e.byte_size,
        created_at: e.created_at,
        pinned: e.pinned,
        thumbnail: match &e.thumbnail {
            Some(t) => Some(t.clone()),
            None => None,
        },
    }
}

impl Database {
    /// List history entries, newest first: the page selected by `limit`
    /// (default 100) and `offset` (default 0) of the entries matching
    /// `search`, and the total count of matching entries.
    pub fn get_history(&self, limit: Option<u32>, offset: Option<u32>, search: Option<&str>) -> (r:
        (Vec<HistoryEntry>, u64))
        ensures
            ({
                let q = norm_query(
                    match search {
                        Some(s) => Some(s@),
                        None => None,
                    },
                );
                let l = hist_list(self@, q, self@.len() as int);
                let lim = match limit {
                    Some(x) => x,
                    None => 100u32,
                };
                let off = match offset {
                    Some(x) => x,
                    None => 0u32,
                };
                r.1 == l.len() && r.0.deep_view() == spec_page(to_hist_all(l), lim, off)
            }),
    {
        let lim: u32 = match limit {
            Some(x) => x,
            None => 100,
        };
        let off: u32 = match offset {
            Some(x) => x,
            None => 0,
        };
        let mut use_q = false;
        let mut qchars: Vec<char> = Vec::new();
        match search {
            Some(s) => {
                qchars = str_chars(s);
                if qchars.len() > 0 {
                    use_q = true;
                }
            },
            None => {},
        }
        let ghost q = norm_query(
            match search {
                Some(s) => Some(s@),
                None => None,
            },
        );
        assert(use_q ==> q == Some(qchars@));
        assert(!use_q ==> q is None);
        let es = &self.entries;
        let n = es.len();
        let mut full: Vec<HistoryEntry> = Vec::new();
        let ghost mut matched: Seq<StoredEntryV> = Seq::empty();
        let mut i: usize = n;
        while i > 0
            invariant
                0 <= i <= n,
                n == self@.len(),
                use_q ==> q == Some(qchars@) && qchars@.len() > 0,
                !use_q ==> q is None,
                es == self.entries,
                matched + hist_list(self@, q, i as int) == hist_list(self@, q, n as int),
                full@.len() == matched.len(),
                forall|k2: int|
                    0 <= k2 < matched.len() ==> (#[trigger] full@[k2])@ == to_hist(matched[k2]),
            decreases i,
        {
            let e = &es[i - 1];
            let ghost ev = self@[i as int - 1];
            assert(ev == e@);
            let is_match = if use_q {
                let pv = str_chars(e.preview.as_str());
                contains_ci_exec(&pv, &qchars)
            } else {
                true
            };
            assert(is_match == query_matches(ev, q));
            if is_match {
                let h = hist_of(e);
                let ghost m0 = matched;
                let ghost fv0 = full@;
                proof {
                    matched = matched + seq![ev];
                }
                full.push(h);
                proof {
                    assert(hist_list(self@, q, i as int) == seq![ev] + hist_list(
                        self@,
                        q,
                        i as int - 1,
                    ));
                    assert(matched + hist_list(self@, q, i as int - 1) =~= m0 + hist_list(
                        self@,
                        q,
                        i as int,
                    ));
                    assert forall|k2: int| 0 <= k2 < matched.len() implies (
                    #[trigger] full@[k2])@ == to_hist(matched[k2]) by {
                        if k2 < m0.len() {
                            assert(full@[k2] == fv0[k2]);
                            assert(matched[k2] == m0[k2]);
                        } else {
                            assert(full@[k2] == h);
                            assert(matched[k2] == ev);
                        }
                    }
                }
            } else {
                proof {
                    assert(hist_list(self@, q, i as int) == hist_list(self@, q, i as int - 1));
                }
            }
            i -= 1;
        }
        proof {
            assert(hist_list(self@, q, 0) == Seq::<StoredEntryV>::empty());
            assert(matched =~= hist_list(self@, q, n as int));
        }
        let total = full.len() as u64;
        let ghost l = to_hist_all(hist_list(self@, q, n as int));
        proof {
            assert(l.len() == matched.len());
            assert(forall|k2: int| 0 <= k2 < l.len() ==> #[trigger] l[k2] == to_hist(matched[k2]));
        }
        let flen = full.len();
        let mut out: Vec<HistoryEntry> = Vec::new();
        if off as usize >= flen {
            assert(out.deep_view() =~= spec_page(l, lim, off));
            return (out, total);
        }
        let start = off as usize;
        let remaining = flen - start;
        let take = if (lim as usize) <= remaining {
            lim as usize
        } else {
            remaining
        };
        let end = start + take;
        let mut k: usize = start;
        while k < end
            invariant
                start <= k <= end <= flen,
                flen == full@.len(),
                out@.len() == k - start,
                forall|m: int|
                    0 <= m < out@.len() ==> (#[trigger] out@[m])@ == full@[start + m]@,
            decreases end - k,
        {
            let ghost ov0 = out@;
            let h = copy_hist(&full[k]);
            let ghost hv = h@;
            out.push(h);
            proof {
                assert(hv == full@[k as int]@);
                assert forall|m: int| 0 <= m < out@.len() implies (#[trigger] out@[m])@ == full@[
                    start + m]@ by {
                    if m < k - start {
                        assert(out@[m] == ov0[m]);
                    } else {
                        assert(out@[m] == h);
                    }
                }
            }
            k += 1;
        }
        proof {
            assert(out.deep_view() =~= spec_page(l, lim, off)) by {
                assert(spec_page(l, lim, off) == l.subrange(start as int, end as int));
                assert forall|m: int| 0 <= m < out@.len() implies out.deep_view()[m] == spec_page(
                    l,
                    lim,
                    off,
                )[m] by {
                    assert(out@[m]@ == full@[start + m]@);
                    assert(l[start + m] == to_hist(matched[start + m]));
                    assert(full@[start + m]@ == to_hist(matched[start + m]));
                }
            }
        }
        (out, total)
    }
}

// ---------------------------------------------------------------------------
// Clearing and eviction.
// ---------------------------------------------------------------------------

/// The pinned entries, in order.
pub open spec fn keep_pinned(es: Seq<StoredEntryV>) -> Seq<StoredEntryV>
    decreases es.len(),
{
    if es.len() == 0 {
        Seq::empty()
    } else {
        (if es[0].pinned {
            seq![es[0]]
        } else {
            Seq::empty()
        }) + keep_pinned(es.drop_first())
    }
}

/// The entries that survive the age rule: pinned ones, and ones created at or
/// after the cutoff.
pub open spec fn keep_young(es: Seq<StoredEntryV>, cutoff: int) -> Seq<StoredEntryV>
    decreases es.len(),
{
    if es.len() == 0 {
        Seq::empty()
    } else {
        (if es[0].pinned || es[0].created_at >= cutoff {
            seq![es[0]]
        } else {
            Seq::empty()
        }) + keep_young(es.drop_first(), cutoff)
    }
}

/// The number of non-pinned entries.
pub open spec fn unpinned_count(es: Seq<StoredEntryV>) -> nat
    decreases es.len(),
{
    if es.len() == 0 {
        0
    } else {
        (if es[0].pinned {
            0nat
        } else {
            1nat
        }) + unpinned_count(es.drop_first())
    }
}

/// What an eviction pass with the count rule leaves behind: the pinned entries
/// untouched, no more than `max` non-pinned ones — as many as were there, when
/// they fit — every survivor one of the old entries, and every evicted
/// non-pinned entry below every surviving non-pinned one in the eviction
/// order.
pub open spec fn cleanup_post(
    before: Seq<StoredEntryV>,
    after: Seq<StoredEntryV>,
    max: u32,
) -> bool {
    &&& keep_pinned(after) == keep_pinned(before)
    &&& unpinned_count(after) <= max as nat
    &&& unpinned_count(after) == if unpinned_count(before) <= max as nat {
        unpinned_count(before)
    } else {
        max as nat
    }
    &&& forall|k: int|
        0 <= k < after.len() ==> exists|j: int|
            0 <= j < before.len() && #[trigger] after[k] == before[j]
    &&& forall|j: int, k: int|
        0 <= j < before.len() && !(#[trigger] before[j]).pinned && !has_id(after, before[j].id) && 0
            <= k < after.len() && !(#[trigger] after[k]).pinned ==> lu_lt(before[j], after[k])
}

/// The cutoff of the age rule: entries created before it are evicted.
pub open spec fn age_cutoff(now: i64, max_age_days: u32) -> int {
    now - max_age_days * 86400
}

/// What the age rule leaves behind.
pub open spec fn aged(es: Seq<StoredEntryV>, max_age_days: u32, now: i64) -> Seq<StoredEntryV> {
    if max_age_days > 0 {
        keep_young(es, age_cutoff(now, max_age_days))
    } else {
        es
    }
}

/// Removing a non-pinned entry does not change the pinned ones.
proof fn lemma_keep_pinned_remove(es: Seq<StoredEntryV>, k: int)
    requires
        0 <= k < es.len(),
        !es[k].pinned,
    ensures
        keep_pinned(es.remove(k)) == keep_pinned(es),
    decreases es.len(),
{
    if k == 0 {
        assert(es.remove(0) =~= es.drop_first());
    } else {
        assert(es.remove(k).drop_first() =~= es.drop_first().remove(k - 1));
        assert(es.remove(k)[0] == es[0]);
        lemma_keep_pinned_remove(es.drop_first(), k - 1);
    }
}

/// Removing a non-pinned entry lowers the non-pinned count by one.
proof fn lemma_unpinned_count_remove(es: Seq<StoredEntryV>, k: int)
    requires
        0 <= k < es.len(),
        !es[k].pinned,
    ensures
        unpinned_count(es.remove(k)) + 1 == unpinned_count(es),
    decreases es.len(),
{
    if k == 0 {
        assert(es.remove(0) =~= es.drop_first());
    } else {
        assert(es.remove(k).drop_first() =~= es.drop_first().remove(k - 1));
        assert(es.remove(k)[0] == es[0]);
        lemma_unpinned_count_remove(es.drop_first(), k - 1);
    }
}

/// A store of pinned entries only has no non-pinned ones.
proof fn lemma_unpinned_zero(es: Seq<StoredEntryV>)
    requires
        forall|k: int| 0 <= k < es.len() ==> (#[trigger] es[k]).pinned,
    ensures
        unpinned_count(es) == 0,
    decreases es.len(),
{
    if es.len() > 0 {
        lemma_unpinned_zero(es.drop_first());
    }
}

/// The age rule keeps every entry that is young enough.
proof fn lemma_keep_young_all(es: Seq<StoredEntryV>, cutoff: int)
    requires
        forall|k: int| 0 <= k < es.len() ==> (#[trigger] es[k]).created_at >= cutoff,
    ensures
        keep_young(es, cutoff) == es,
    decreases es.len(),
{
    if es.len() == 0 {
        assert(keep_young(es, cutoff) =~= es);
    } else {
        lemma_keep_young_all(es.drop_first(), cutoff);
        assert(keep_young(es, cutoff) =~= seq![es[0]] + es.drop_first());
        assert(seq![es[0]] + es.drop_first() =~= es);
    }
}

/// The age rule does not change the pinned entries.
proof fn lemma_keep_pinned_young(es: Seq<StoredEntryV>, cutoff: int)
    ensures
        keep_pinned(keep_young(es, cutoff)) == keep_pinned(es),
    decreases es.len(),
{
    if es.len() > 0 {
        lemma_keep_pinned_young(es.drop_first(), cutoff);
        if es[0].pinned || es[0].created_at >= cutoff {
            assert(keep_young(es, cutoff) =~= seq![es[0]] + keep_young(es.drop_first(), cutoff));
            let ky = keep_young(es, cutoff);
            assert(ky[0] == es[0]);
            assert(ky.drop_first() =~= keep_young(es.drop_first(), cutoff));
        } else {
            assert(keep_young(es, cutoff) =~= keep_young(es.drop_first(), cutoff));
        }
    }
}

impl Database {
    /// Delete every non-pinned entry.
    pub fn clear_unpinned(&mut self)
        requires
            old(self).wf(),
        ensures
            final(self).wf(),
            final(self).spec_next_id() == old(self).spec_next_id(),
            final(self)@ == keep_pinned(old(self)@),
    {
        let ghost orig = self@;
        let n = self.entries.len();
        let mut i: usize = n;
        while i > 0
            invariant
                0 <= i <= n,
                n == orig.len(),
                self.wf(),
                self.spec_next_id() == old(self).spec_next_id(),
                self@ =~= orig.subrange(0, i as int) + keep_pinned(
                    orig.subrange(i as int, n as int),
                ),
            decreases i,
        {
            proof {
                let suf = orig.subrange(i as int - 1, n as int);
                assert(suf[0] == orig[i as int - 1]);
                assert(suf.drop_first() =~= orig.subrange(i as int, n as int));
            }
            assert(self@.len() >= i);
            assert(self@[i as int - 1] == orig[i as int - 1]) by {
                assert(orig.subrange(0, i as int)[i as int - 1] == orig[i as int - 1]);
            }
            if !self.entries[i - 1].pinned {
                let ghost before = self@;
                self.entries.remove(i - 1);
                proof {
                    assert(self@ =~= before.remove(i as int - 1));
                    lemma_wf_remove(before, self.spec_next_id(), i as int - 1);
                    assert(self@ =~= orig.subrange(0, i as int - 1) + keep_pinned(
                        orig.subrange(i as int - 1, n as int),
                    ));
                }
            } else {
                proof {
                    assert(orig.subrange(0, i as int) =~= orig.subrange(0, i as int - 1) + seq![
                        orig[i as int - 1],
                    ]);
                    assert(self@ =~= orig.subrange(0, i as int - 1) + keep_pinned(
                        orig.subrange(i as int - 1, n as int),
                    ));
                }
            }
            i -= 1;
        }
        proof {
            assert(orig.subrange(0, 0) =~= Seq::<StoredEntryV>::empty());
            assert(orig.subrange(0, n as int) =~= orig);
            assert(self@ =~= keep_pinned(orig));
        }
    }

    /// Delete every non-pinned entry created before `cutoff`.
    fn remove_old(&mut self, cutoff: i64)
        requires
            old(self).wf(),
        ensures
            final(self).wf(),
            final(self).spec_next_id() == old(self).spec_next_id(),
            final(self)@ == keep_young(old(self)@, cutoff as int),
    {
        let ghost orig = self@;
        let n = self.entries.len();
        let mut i: usize = n;
        while i > 0
            invariant
                0 <= i <= n,
                n == orig.len(),
                self.wf(),
                self.spec_next_id() == old(self).spec_next_id(),
                self@ =~= orig.subrange(0, i as int) + keep_young(
                    orig.subrange(i as int, n as int),
                    cutoff as int,
                ),
            decreases i,
        {
            proof {
                let suf = orig.subrange(i as int - 1, n as int);
                assert(suf[0] == orig[i as int - 1]);
                assert(suf.drop_first() =~= orig.subrange(i as int, n as int));
            }
            assert(self@.len() >= i);
            assert(self@[i as int - 1] == orig[i as int - 1]) by {
                assert(orig.subrange(0, i as int)[i as int - 1] == orig[i as int - 1]);
            }
            let e = &self.entries[i - 1];
            if !e.pinned && e.created_at < cutoff {
                let ghost before = self@;
                self.entries.remove(i - 1);
                proof {
                    assert(self@ =~= before.remove(i as int - 1));
                    lemma_wf_remove(before, self.spec_next_id(), i as int - 1);
                    assert(self@ =~= orig.subrange(0, i as int - 1) + keep_young(
                        orig.subrange(i as int - 1, n as int),
                        cutoff as int,
                    ));
                }
            } else {
                proof {
                    assert(orig.subrange(0, i as int) =~= orig.subrange(0, i as int - 1) + seq![
                        orig[i as int - 1],
                    ]);
                    assert(self@ =~= orig.subrange(0, i as int - 1) + keep_young(
                        orig.subrange(i as int - 1, n as int),
                        cutoff as int,
                    ));
                }
            }
            i -= 1;
        }
        proof {
            assert(orig.subrange(0, 0) =~= Seq::<StoredEntryV>::empty());
            assert(orig.subrange(0, n as int) =~= orig);
            assert(self@ =~= keep_young(orig, cutoff as int));
        }
    }

    /// The number of non-pinned entries.
    fn count_unpinned(&self) -> (c: usize)
        ensures
            c == unpinned_count(self@),
    {
        let n = self.entries.len();
        let mut c: usize = 0;
        let mut i: usize = 0;
        proof {
            assert(self@.subrange(0, self@.len() as int) =~= self@);
        }
        while i < n
            invariant
                0 <= i <= n,
                n == self@.len(),
                c <= i,
                c + unpinned_count(self@.subrange(i as int, n as int)) == unpinned_count(self@),
            decreases n - i,
        {
            proof {
                let suf = self@.subrange(i as int, n as int);
                assert(suf[0] == self@[i as int]);
                assert(suf.drop_first() =~= self@.subrange(i as int + 1, n as int));
            }
            if !self.entries[i].pinned {
                c += 1;
            }
            i += 1;
        }
        proof {
            assert(self@.subrange(n as int, n as int) =~= Seq::<StoredEntryV>::empty());
        }
        c
    }

    /// The index of the least non-pinned entry in the eviction order.
    fn argmin_unpinned(&self) -> (r: Option<usize>)
        ensures
            match r {
                Some(m) => 0 <= m < self@.len() && !self@[m as int].pinned && forall|k: int|
                    0 <= k < self@.len() && !(#[trigger] self@[k]).pinned ==> !lu_lt(
                        self@[k],
                        self@[m as int],
                    ),
                None => forall|k: int| 0 <= k < self@.len() ==> (#[trigger] self@[k]).pinned,
            },
    {
        let n = self.entries.len();
        let mut best: Option<usize> = None;
        let mut i: usize = 0;
        while i < n
            invariant
                0 <= i <= n,
                n == self@.len(),
                match best {
                    Some(m) => 0 <= m < i && !self@[m as int].pinned && forall|k: int|
                        0 <= k < i && !(#[trigger] self@[k]).pinned ==> !lu_lt(
                            self@[k],
                            self@[m as int],
                        ),
                    None => forall|k: int| 0 <= k < i ==> (#[trigger] self@[k]).pinned,
                },
            decreases n - i,
        {
            let e = &self.entries[i];
            if !e.pinned {
                match best {
                    Some(m) => {
                        let b = &self.entries[m];
                        if e.last_used_at < b.last_used_at || (e.last_used_at == b.last_used_at
                            && e.id < b.id) {
                            best = Some(i);
                        }
                    },
                    None => {
                        best = Some(i);
                    },
                }
            }
            i += 1;
        }
        best
    }

    /// One eviction pass of the count rule: while more than `max_entries`
    /// non-pinned entries remain, delete the least recently used one (ties
    /// broken by the lower id).
    #[verifier::rlimit(100)]
    pub fn cleanup(&mut self, max_entries: u32)
        requires
            old(self).wf(),
        ensures
            final(self).wf(),
            final(self).spec_next_id() == old(self).spec_next_id(),
            cleanup_post(old(self)@, final(self)@, max_entries),
    {
        let ghost orig = self@;
        loop
            invariant
                self.wf(),
                old(self).wf(),
                orig == old(self)@,
                self.spec_next_id() == old(self).spec_next_id(),
                keep_pinned(self@) == keep_pinned(orig),
                unpinned_count(self@) <= unpinned_count(orig),
                unpinned_count(self@) == unpinned_count(orig) || unpinned_count(self@)
                    >= max_entries as nat,
                forall|k: int|
                    0 <= k < self@.len() ==> exists|j: int|
                        0 <= j < orig.len() && #[trigger] self@[k] == orig[j],
                forall|j: int, k: int|
                    0 <= j < orig.len() && !(#[trigger] orig[j]).pinned && !has_id(
                        self@,
                        orig[j].id,
                    ) && 0 <= k < self@.len() && !(#[trigger] self@[k]).pinned ==> lu_lt(
                        orig[j],
                        self@[k],
                    ),
            decreases unpinned_count(self@),
        {
            let c = self.count_unpinned();
            if c <= max_entries as usize {
                return ;
            }
            let m = match self.argmin_unpinned() {
                Some(m) => m,
                None => {
                    proof {
                        lemma_unpinned_zero(self@);
                    }
                    return ;
                },
            };
            let ghost cur = self@;
            let ghost me = cur[m as int];
            self.entries.remove(m);
            proof {
                assert(self@ =~= cur.remove(m as int));
                lemma_wf_remove(cur, self.spec_next_id(), m as int);
                lemma_keep_pinned_remove(cur, m as int);
                lemma_unpinned_count_remove(cur, m as int);
                // Every remaining entry is one of the previous ones.
                assert forall|k: int| 0 <= k < self@.len() implies exists|j: int|
                    0 <= j < orig.len() && #[trigger] self@[k] == orig[j] by {
                    let k0 = if k < m {
                        k
                    } else {
                        k + 1
                    };
                    assert(self@[k] == cur[k0]);
                    let j = choose|j: int| 0 <= j < orig.len() && cur[k0] == orig[j];
                    assert(self@[k] == orig[j]);
                }
                // The removed entry and all previously removed ones sit below
                // every remaining non-pinned entry in the eviction order.
                assert forall|j: int, k: int|
                    0 <= j < orig.len() && !(#[trigger] orig[j]).pinned && !has_id(
                        self@,
                        orig[j].id,
                    ) && 0 <= k < self@.len() && !(#[trigger] self@[k]).pinned implies lu_lt(
                    orig[j],
                    self@[k],
                ) by {
                    let k0 = if k < m {
                        k
                    } else {
                        k + 1
                    };
                    assert(self@[k] == cur[k0]);
                    if has_id(cur, orig[j].id) {
                        // It was present before this removal, so it is the
                        // entry just removed.
                        let j2 = choose|j2: int|
                            0 <= j2 < cur.len() && (#[trigger] cur[j2]).id == orig[j].id;
                        assert(j2 == m) by {
                            if j2 != m {
                                let k2 = if j2 < m {
                                    j2
                                } else {
                                    j2 - 1
                                };
                                assert(self@[k2] == cur[j2]);
                                assert(has_id(self@, orig[j].id));
                            }
                        }
                        // Two entries of `orig` share this id only if they are
                        // the same entry.
                        let jm = choose|jm: int| 0 <= jm < orig.len() && cur[m as int] == orig[jm];
                        assert(orig[jm].id == orig[j].id);
                        assert(jm == j) by {
                            if jm < j {
                                assert(orig[jm].id != orig[j].id);
                            }
                            if j < jm {
                                assert(orig[j].id != orig[jm].id);
                            }
                        }
                        assert(orig[j] == cur[m as int]);
                        // The removed entry was the least non-pinned one.
                        assert(!lu_lt(cur[k0], cur[m as int]));
                        assert(cur[k0].id != cur[m as int].id) by {
                            if k0 < m {
                                assert(cur[k0].id != cur[m as int].id);
                            }
                        }
                        assert(lu_lt(cur[m as int], cur[k0]));
                    } else {
                        assert(lu_lt(orig[j], cur[k0]));
                    }
                }
            }
        }
    }

    /// One full eviction pass: the age rule (when `max_age_days` is non-zero),
    /// then the count rule.  Pinned entries are never evicted, and afterwards
    /// at most `max_entries` non-pinned entries remain.
    pub fn sweep(&mut self, max_entries: u32, max_age_days: u32, now: i64)
        requires
            old(self).wf(),
        ensures
            final(self).wf(),
            final(self).spec_next_id() == old(self).spec_next_id(),
            cleanup_post(aged(old(self)@, max_age_days, now), final(self)@, max_entries),
            keep_pinned(final(self)@) == keep_pinned(old(self)@),
            unpinned_count(final(self)@) <= max_entries as nat,
    {
        let ghost orig = self@;
        if max_age_days > 0 {
            let secs: i64 = (max_age_days as i64) * 86400;
            match now.checked_sub(secs) {
                Some(cutoff) => {
                    self.remove_old(cutoff);
                },
                None => {
                    proof {
                        assert(age_cutoff(now, max_age_days) < i64::MIN);
                        assert(forall|k: int|
                            0 <= k < self@.len() ==> (#[trigger] self@[k]).created_at
                                >= age_cutoff(now, max_age_days));
                        lemma_keep_young_all(self@, age_cutoff(now, max_age_days));
                    }
                },
            }
            proof {
                lemma_keep_pinned_young(orig, age_cutoff(now, max_age_days));
            }
        }
        assert(self@ == aged(orig, max_age_days, now));
        self.cleanup(max_entries);
    }
}

// ---------------------------------------------------------------------------
// Laws of the store.
// ---------------------------------------------------------------------------

/// Every entry of a well-formed store carries its content: the stored size is
/// exactly the length of the entry's bytes.
pub proof fn lemma_content_sizes(db: &Database)
    requires
        db.wf(),
    ensures
        forall|i: int|
            0 <= i < db@.len() ==> (#[trigger] db@[i]).byte_size == db@[i].bytes.len(),
{
}

/// No two distinct entries of a well-formed store share a content hash.
pub proof fn lemma_hashes_unique(db: &Database)
    requires
        db.wf(),
    ensures
        forall|i: int, j: int|
            0 <= i < j < db@.len() ==> (#[trigger] db@[i]).content_hash != (
            #[trigger] db@[j]).content_hash,
{
}

/// The pinned survivors of a store are exactly its pinned entries.
pub proof fn lemma_keep_pinned_members(es: Seq<StoredEntryV>)
    ensures
        forall|x: StoredEntryV| #[trigger]
            keep_pinned(es).contains(x) <==> es.contains(x) && x.pinned,
    decreases es.len(),
{
    if es.len() > 0 {
        let tail = es.drop_first();
        lemma_keep_pinned_members(tail);
        let kp = keep_pinned(es);
        assert forall|x: StoredEntryV| #[trigger] kp.contains(x) implies es.contains(x)
            && x.pinned by {
            let i = choose|i: int| 0 <= i < kp.len() && kp[i] == x;
            if es[0].pinned {
                if i == 0 {
                    assert(es[0] == x);
                } else {
                    assert(kp[i] == keep_pinned(tail)[i - 1]);
                    assert(keep_pinned(tail).contains(x));
                    let j = choose|j: int| 0 <= j < tail.len() && tail[j] == x;
                    assert(es[j + 1] == x);
                }
            } else {
                assert(kp[i] == keep_pinned(tail)[i]);
                assert(keep_pinned(tail).contains(x));
                let j = choose|j: int| 0 <= j < tail.len() && tail[j] == x;
                assert(es[j + 1] == x);
            }
        }
        assert forall|x: StoredEntryV| es.contains(x) && x.pinned implies #[trigger] kp.contains(
            x,
        ) by {
            let i = choose|i: int| 0 <= i < es.len() && es[i] == x;
            if i == 0 {
                assert(kp[0] == x);
            } else {
                assert(tail[i - 1] == x);
                assert(keep_pinned(tail).contains(x));
                let j = choose|j: int| 0 <= j < keep_pinned(tail).len() && keep_pinned(tail)[j]
                    == x;
                if es[0].pinned {
                    assert(kp[j + 1] == x);
                } else {
                    assert(kp[j] == x);
                }
            }
        }
    } else {
        assert(keep_pinned(es) =~= Seq::<StoredEntryV>::empty());
    }
}

/// Pinned entries are present before and after an eviction pass: the pass
/// keeps the pinned entries unchanged, so a pinned entry is stored afterwards
/// exactly when it was stored before.
pub proof fn lemma_pinned_preserved(before: Seq<StoredEntryV>, after: Seq<StoredEntryV>)
    requires
        keep_pinned(after) == keep_pinned(before),
    ensures
        forall|x: StoredEntryV|
            x.pinned ==> ((#[trigger] before.contains(x)) <==> after.contains(x)),
{
    lemma_keep_pinned_members(before);
    lemma_keep_pinned_members(after);
    assert forall|x: StoredEntryV| x.pinned implies ((#[trigger] before.contains(x))
        <==> after.contains(x)) by {
        assert(keep_pinned(before).contains(x) <==> before.contains(x) && x.pinned);
        assert(keep_pinned(after).contains(x) <==> after.contains(x) && x.pinned);
    }
}

/// The store after pinning or unpinning the entry at `k`.
pub open spec fn pinned_set(es: Seq<StoredEntryV>, k: int, pinned: bool) -> Seq<StoredEntryV> {
    es.update(k, StoredEntryV { pinned, ..es[k] })
}

/// Setting an entry's pinned flag twice in succession leaves the store
/// exactly as setting it once does.
pub proof fn lemma_set_pinned_idempotent(es: Seq<StoredEntryV>, k: int, pinned: bool)
    requires
        0 <= k < es.len(),
    ensures
        pinned_set(pinned_set(es, k, pinned), k, pinned) == pinned_set(es, k, pinned),
{
    assert(pinned_set(pinned_set(es, k, pinned), k, pinned) =~= pinned_set(es, k, pinned));
}

/// A touch — the effect of capturing bytes that are already stored — keeps
/// the entry count and the entry's identity: its creation time and hash are
/// unchanged, its use count is one higher, its last use moves to `now` when
/// time advanced, and every other entry is untouched.
pub proof fn lemma_touch_effect(es: Seq<StoredEntryV>, k: int, now: i64)
    requires
        0 <= k < es.len(),
    ensures
        ({
            let t = es.update(k, touched(es[k], now));
            &&& t.len() == es.len()
            &&& t[k].created_at == es[k].created_at
            &&& t[k].content_hash == es[k].content_hash
            &&& t[k].bytes == es[k].bytes
            &&& t[k].pinned == es[k].pinned
            &&& es[k].use_count < u64::MAX ==> t[k].use_count == es[k].use_count + 1
            &&& now > es[k].last_used_at ==> t[k].last_used_at == now
            &&& now <= es[k].last_used_at ==> t[k].last_used_at == es[k].last_used_at
            &&& forall|j: int| 0 <= j < es.len() && j != k ==> #[trigger] t[j] == es[j]
        }),
{
}

/// Every entry a history query lists is one of the store's entries.
proof fn lemma_hist_list_members(es: Seq<StoredEntryV>, q: Option<Seq<char>>, i: int)
    ensures
        forall|k: int|
            0 <= k < hist_list(es, q, i).len() ==> exists|j: int|
                0 <= j < es.len() && #[trigger] hist_list(es, q, i)[k] == es[j],
    decreases i,
{
    if 0 < i <= es.len() {
        lemma_hist_list_members(es, q, i - 1);
        let l = hist_list(es, q, i);
        assert forall|k: int| 0 <= k < l.len() implies exists|j: int|
            0 <= j < es.len() && #[trigger] l[k] == es[j] by {
            if query_matches(es[i - 1], q) {
                if k == 0 {
                    assert(l[0] == es[i - 1]);
                } else {
                    assert(l[k] == hist_list(es, q, i - 1)[k - 1]);
                }
            } else {
                assert(l[k] == hist_list(es, q, i - 1)[k]);
            }
        }
    }
}

/// After clearing the history, every entry any history query returns is
/// pinned: no non-pinned entry is listed.
pub proof fn lemma_history_after_clear(
    es: Seq<StoredEntryV>,
    q: Option<Seq<char>>,
    lim: u32,
    off: u32,
)
    ensures
        ({
            let cleared = keep_pinned(es);
            let page = spec_page(to_hist_all(hist_list(cleared, q, cleared.len() as int)), lim, off);
            forall|k: int| 0 <= k < page.len() ==> (#[trigger] page[k]).pinned
        }),
{
    let cleared = keep_pinned(es);
    let l = hist_list(cleared, q, cleared.len() as int);
    let page = spec_page(to_hist_all(l), lim, off);
    lemma_keep_pinned_members(es);
    lemma_hist_list_members(cleared, q, cleared.len() as int);
    assert forall|k: int| 0 <= k < page.len() implies (#[trigger] page[k]).pinned by {
        assert(page[k] == to_hist_all(l)[off + k]);
        assert(to_hist_all(l)[off + k] == to_hist(l[off + k]));
        let j = choose|j: int| 0 <= j < cleared.len() && l[off + k] == cleared[j];
        assert(cleared.contains(cleared[j]));
        assert(cleared[j].pinned);
    }
}

/// Removing an entry keeps the store well-formed.
proof fn lemma_wf_remove(es: Seq<StoredEntryV>, next_id: int, k: int)
    requires
        wf_entries(es, next_id),
        0 <= k < es.len(),
    ensures
        wf_entries(es.remove(k), next_id),
{
    let r = es.remove(k);
    assert forall|i: int| 0 <= i < r.len() implies wf_entry(#[trigger] r[i]) && 1 <= r[i].id
        < next_id by {
        let i0 = if i < k {
            i
        } else {
            i + 1
        };
        assert(r[i] == es[i0]);
    }
    assert forall|i: int, j: int| 0 <= i < j < r.len() implies (#[trigger] r[i]).id != (
    #[trigger] r[j]).id && r[i].content_hash != r[j].content_hash && ca_lt(r[i], r[j]) by {
        let i0 = if i < k {
            i
        } else {
            i + 1
        };
        let j0 = if j < k {
            j
        } else {
            j + 1
        };
        assert(r[i] == es[i0] && r[j] == es[j0]);
        assert(es[i0].id != es[j0].id && es[i0].content_hash != es[j0].content_hash && ca_lt(
            es[i0],
            es[j0],
        ));
    }
}

} // verus!
