//! A tree's operations under the transaction that holds it.
use vstd::prelude::*;
use crate::error::Error;
use crate::keys::{in_range, KeyBound};
use crate::lru_map::{lemma_lru_insert_entries, lemma_lru_touch_entries, lru_touch};
use crate::paging::{lemma_read_extended, lemma_read_len, read_paged, TAG_PAYLOAD};
use crate::state::{
    contents, encode_index, index_json, index_triples, lemma_key_map, lemma_payload_round_trip, payload_offset, readable, scan_spec, value_of,
    with_payload, with_snapshot, DataRetriever, CACHE_CAPACITY, DataWriter, Index, State, StateWriter,
    VersionedState,
};

verus! {

/// What a tree holds: the contents that committed transactions left, and
/// the contents that the transaction holding the tree sees.
pub struct TreeView {
    pub committed: Map<Seq<u8>, Seq<u8>>,
    pub working: Map<Seq<u8>, Seq<u8>>,
}

/// A change to a tree, as the laws below speak of it.
pub enum TreeOp {
    Put(Seq<u8>, Seq<u8>),
    Remove(Seq<u8>),
    Commit,
    Rollback,
}

impl TreeOp {
    pub open spec fn touches(self, k: Seq<u8>) -> bool {
        match self {
            TreeOp::Put(x, _) => x == k,
            TreeOp::Remove(x) => x == k,
            _ => false,
        }
    }
}

impl TreeView {
    pub open spec fn set(self, k: Seq<u8>, v: Seq<u8>) -> TreeView {
        TreeView { committed: self.committed, working: self.working.insert(k, v) }
    }

    pub open spec fn remove(self, k: Seq<u8>) -> TreeView {
        TreeView { committed: self.committed, working: self.working.remove(k) }
    }

    pub open spec fn commit(self) -> TreeView {
        TreeView { committed: self.working, working: self.working }
    }

    pub open spec fn rollback(self) -> TreeView {
        TreeView { committed: self.committed, working: self.committed }
    }

    /// What a read of `k` gives.
    pub open spec fn read(self, k: Seq<u8>) -> Option<Seq<u8>> {
        if self.working.contains_key(k) {
            Some(self.working[k])
        } else {
            None
        }
    }

    pub open spec fn apply(self, op: TreeOp) -> TreeView {
        match op {
            TreeOp::Put(k, v) => self.set(k, v),
            TreeOp::Remove(k) => self.remove(k),
            TreeOp::Commit => self.commit(),
            TreeOp::Rollback => self.rollback(),
        }
    }
}

pub open spec fn apply_all(t: TreeView, ops: Seq<TreeOp>) -> TreeView
    decreases ops.len(),
{
    if ops.len() == 0 {
        t
    } else {
        apply_all(t, ops.drop_last()).apply(ops.last())
    }
}

/// A value written and committed under a key is what every later
/// transaction reads there, whatever else is set, removed, committed or
/// rolled back, until that key is set or removed again.
pub proof fn lemma_committed_value_read_back(t: TreeView, k: Seq<u8>, v: Seq<u8>, ops: Seq<TreeOp>)
    requires
        forall|i: int| 0 <= i < ops.len() ==> !(#[trigger] ops[i]).touches(k),
    ensures
        apply_all(t.set(k, v).commit(), ops).committed.contains_key(k),
        apply_all(t.set(k, v).commit(), ops).committed[k] == v,
        apply_all(t.set(k, v).commit(), ops).rollback().read(k) == Some(v),
    decreases ops.len(),
{
    lemma_value_stays(t.set(k, v).commit(), k, v, ops);
}

proof fn lemma_value_stays(t: TreeView, k: Seq<u8>, v: Seq<u8>, ops: Seq<TreeOp>)
    requires
        t.committed.contains_key(k) && t.committed[k] == v,
        t.working.contains_key(k) && t.working[k] == v,
        forall|i: int| 0 <= i < ops.len() ==> !(#[trigger] ops[i]).touches(k),
    ensures
        apply_all(t, ops).committed.contains_key(k) && apply_all(t, ops).committed[k] == v,
        apply_all(t, ops).working.contains_key(k) && apply_all(t, ops).working[k] == v,
    decreases ops.len(),
{
    if ops.len() > 0 {
        let pre = ops.drop_last();
        assert forall|i: int| 0 <= i < pre.len() implies !(#[trigger] pre[i]).touches(k) by {
            assert(pre[i] == ops[i]);
        }
        lemma_value_stays(t, k, v, pre);
        assert(!ops[ops.len() - 1].touches(k));
    }
}

/// A named tree and its data.
pub struct Tree {
    pub name: String,
    pub state: State,
}

impl View for Tree {
    type V = TreeView;

    open spec fn view(&self) -> TreeView {
        TreeView { committed: self.state.committed(), working: self.state.working() }
    }
}

proof fn lemma_map_readable(vs: VersionedState, file: Seq<u8>)
    requires
        vs.wf(),
        forall|i: int| 0 <= i < vs.entries().len() ==> readable(file, #[trigger] vs.entries()[i].1),
    ensures
        forall|k: Seq<u8>| #[trigger] vs.map().contains_key(k) ==> readable(file, vs.map()[k]),
{
    lemma_key_map(vs.entries());
    assert forall|k: Seq<u8>| #[trigger] vs.map().contains_key(k) implies readable(
        file,
        vs.map()[k],
    ) by {
        let i = choose|i: int| 0 <= i < vs.entries().len() && vs.entries()[i].0 == k;
        assert(vs.map()[vs.entries()[i].0] == vs.entries()[i].1);
    }
}

/// Entries whose indexes all appear in an earlier snapshot's map, or are
/// `extra`, stay readable.
proof fn lemma_entries_readable(
    vs: VersionedState,
    old_map: Map<Seq<u8>, Index>,
    k: Seq<u8>,
    extra: Index,
    file: Seq<u8>,
)
    requires
        vs.wf(),
        forall|q: Seq<u8>|
            #[trigger] vs.map().contains_key(q) ==> (q == k && vs.map()[q] == extra) || (
            old_map.contains_key(q) && old_map[q] == vs.map()[q]),
        forall|q: Seq<u8>| #[trigger] old_map.contains_key(q) ==> readable(file, old_map[q]),
        readable(file, extra),
    ensures
        forall|i: int| 0 <= i < vs.entries().len() ==> readable(file, #[trigger] vs.entries()[i].1),
{
    lemma_key_map(vs.entries());
    assert forall|i: int| 0 <= i < vs.entries().len() implies readable(
        file,
        #[trigger] vs.entries()[i].1,
    ) by {
        let q = vs.entries()[i].0;
        assert(vs.map().contains_key(q) && vs.map()[q] == vs.entries()[i].1);
    }
}

/// Appending to a file keeps every value that could be read from it.
proof fn lemma_contents_extended(f0: Seq<u8>, g: Seq<u8>, m: Map<Seq<u8>, Index>)
    requires
        forall|k: Seq<u8>| #[trigger] m.contains_key(k) ==> readable(f0, m[k]),
    ensures
        contents(f0 + g, m) == contents(f0, m),
        forall|k: Seq<u8>| #[trigger] m.contains_key(k) ==> readable(f0 + g, m[k]),
{
    assert forall|k: Seq<u8>| #[trigger] m.contains_key(k) implies readable(f0 + g, m[k])
        && value_of(f0 + g, m[k]) == value_of(f0, m[k]) by {
        lemma_read_extended(f0, g, m[k].offset as int, m[k].length as nat, TAG_PAYLOAD);
    }
    assert(contents(f0 + g, m) =~= contents(f0, m));
}

/// Appending to a file keeps the state's invariant: everything it points at
/// can still be read, and reads the same.
proof fn lemma_state_extended(st: State, f1: Seq<u8>)
    requires
        st.wf(),
        st.file@.is_prefix_of(f1),
    ensures
        forall|i: int|
            0 <= i < st.reader.entries().len() ==> readable(f1, #[trigger] st.reader.entries()[i].1),
        forall|i: int|
            0 <= i < st.writer.entries().len() ==> readable(f1, #[trigger] st.writer.entries()[i].1),
        forall|i: int|
            0 <= i < st.cache@.len() ==> read_paged(
                f1,
                #[trigger] st.cache@[i].0 as int,
                st.cache@[i].1@.len(),
                TAG_PAYLOAD,
            ) == Some(st.cache@[i].1@),
        contents(f1, st.reader.map()) == st.committed(),
        contents(f1, st.writer.map()) == st.working(),
        forall|k: Seq<u8>| #[trigger] st.reader.map().contains_key(k) ==> readable(f1, st.reader.map()[k]),
        forall|k: Seq<u8>| #[trigger] st.writer.map().contains_key(k) ==> readable(f1, st.writer.map()[k]),
{
    let f0 = st.file@;
    let g = f1.skip(f0.len() as int);
    assert(f1 =~= f0 + g);
    assert forall|i: int| 0 <= i < st.reader.entries().len() implies readable(
        f1,
        #[trigger] st.reader.entries()[i].1,
    ) by {
        let e = st.reader.entries()[i].1;
        lemma_read_extended(f0, g, e.offset as int, e.length as nat, TAG_PAYLOAD);
    }
    assert forall|i: int| 0 <= i < st.writer.entries().len() implies readable(
        f1,
        #[trigger] st.writer.entries()[i].1,
    ) by {
        let e = st.writer.entries()[i].1;
        lemma_read_extended(f0, g, e.offset as int, e.length as nat, TAG_PAYLOAD);
    }
    assert forall|i: int| 0 <= i < st.cache@.len() implies read_paged(
        f1,
        #[trigger] st.cache@[i].0 as int,
        st.cache@[i].1@.len(),
        TAG_PAYLOAD,
    ) == Some(st.cache@[i].1@) by {
        lemma_read_extended(f0, g, st.cache@[i].0 as int, st.cache@[i].1@.len(), TAG_PAYLOAD);
    }
    lemma_map_readable(st.reader, f0);
    lemma_map_readable(st.writer, f0);
    lemma_contents_extended(f0, g, st.reader.map());
    lemma_contents_extended(f0, g, st.writer.map());
}

proof fn lemma_scan_members(s: Seq<(Seq<u8>, Index)>, lo: KeyBound, hi: KeyBound)
    ensures
        forall|i: int|
            0 <= i < scan_spec(s, lo, hi).len() ==> exists|j: int|
                0 <= j < s.len() && s[j].1 == #[trigger] scan_spec(s, lo, hi)[i],
    decreases s.len(),
{
    if s.len() > 0 {
        let t = s.skip(1);
        lemma_scan_members(t, lo, hi);
        let head: Seq<Index> = if in_range(s[0].0, lo, hi) {
            seq![s[0].1]
        } else {
            seq![]
        };
        assert forall|i: int| 0 <= i < scan_spec(s, lo, hi).len() implies exists|j: int|
            0 <= j < s.len() && s[j].1 == #[trigger] scan_spec(s, lo, hi)[i] by {
            if i < head.len() {
                assert(s[0].1 == scan_spec(s, lo, hi)[i]);
            } else {
                let x = scan_spec(t, lo, hi)[i - head.len()];
                assert(scan_spec(s, lo, hi)[i] == x);
                let j = choose|j: int| 0 <= j < t.len() && t[j].1 == x;
                assert(s[j + 1].1 == x);
            }
        }
    }
}

impl Tree {
    pub open spec fn wf(&self) -> bool {
        self.state.wf()
    }

    /// The value at `idx`, from the cache or else from the file, which then
    /// goes into the cache.
    fn value_at(&mut self, idx: Index) -> (r: Vec<u8>)
        requires
            old(self).wf(),
            readable(old(self).state.file@, idx),
        ensures
            final(self).wf(),
            final(self).state.file == old(self).state.file,
            final(self).state.reader == old(self).state.reader,
            final(self).state.writer == old(self).state.writer,
            final(self).name == old(self).name,
            r@ == value_of(old(self).state.file@, idx),
    {
        let ghost c0 = self.state.cache@;
        let ghost file = self.state.file@;
        proof {
            lemma_lru_touch_entries(c0, idx.offset);
        }
        let hit = match self.state.cache.get(idx.offset) {
            Some(v) => {
                if v.len() as u64 == idx.length {
                    let c = v.clone();
                    proof {
                        assert(c@ =~= v@);
                        let u = lru_touch(c0, idx.offset);
                        assert(u[0] == (idx.offset, *v));
                        assert(u.contains((idx.offset, *v)));
                        let i = choose|i: int| 0 <= i < c0.len() && c0[i] == (idx.offset, *v);
                        assert(read_paged(file, c0[i].0 as int, c0[i].1@.len(), TAG_PAYLOAD) == Some(
                            c0[i].1@,
                        ));
                    }
                    Some(c)
                } else {
                    None
                }
            },
            None => None,
        };
        proof {
            assert forall|i: int| 0 <= i < self.state.cache@.len() implies read_paged(
                file,
                #[trigger] self.state.cache@[i].0 as int,
                self.state.cache@[i].1@.len(),
                TAG_PAYLOAD,
            ) == Some(self.state.cache@[i].1@) by {
                let e = self.state.cache@[i];
                assert(self.state.cache@.contains(e));
                let j = choose|j: int| 0 <= j < c0.len() && c0[j] == e;
            }
        }
        if let Some(v) = hit {
            return v;
        }
        let retriever = DataRetriever { offset: idx.offset, length: idx.length };
        match retriever.retrieve(&self.state.file) {
            Some(v) => {
                let c = v.clone();
                let ghost c1 = self.state.cache@;
                proof {
                    assert(c@ =~= v@);
                    lemma_read_len(file, idx.offset as int, idx.length as nat, TAG_PAYLOAD);
                    lemma_lru_insert_entries(c1, idx.offset, c, CACHE_CAPACITY as nat);
                }
                self.state.cache.insert(idx.offset, c);
                proof {
                    assert forall|i: int| 0 <= i < self.state.cache@.len() implies read_paged(
                        file,
                        #[trigger] self.state.cache@[i].0 as int,
                        self.state.cache@[i].1@.len(),
                        TAG_PAYLOAD,
                    ) == Some(self.state.cache@[i].1@) by {
                        let e = self.state.cache@[i];
                        assert(self.state.cache@.contains(e));
                        if e != (idx.offset, c) {
                            let j = choose|j: int| 0 <= j < c1.len() && c1[j] == e;
                        }
                    }
                }
                v
            },
            None => {
                // `idx` is readable, so the file holds the value.
                assert(false);
                Vec::new()
            },
        }
    }

    /// The value under `key` as the holding transaction sees it.
    pub fn get(&mut self, key: &Vec<u8>) -> (r: Option<Vec<u8>>)
        requires
            old(self).wf(),
        ensures
            final(self).wf(),
            final(self)@ == old(self)@,
            final(self).state.file == old(self).state.file,
            final(self).state.writer == old(self).state.writer,
            final(self).state.reader == old(self).state.reader,
            match r {
                Some(v) => old(self)@.read(key@) == Some(v@),
                None => old(self)@.read(key@) is None,
            },
    {
        proof {
            lemma_map_readable(self.state.writer, self.state.file@);
        }
        match self.state.writer.get(key) {
            None => None,
            Some(idx) => Some(self.value_at(idx)),
        }
    }

    /// Writes `value` under `key` for the holding transaction: the value is
    /// appended to the file and the working index points at it.
    pub fn set(&mut self, key: Vec<u8>, value: Vec<u8>)
        requires
            old(self).wf(),
        ensures
            final(self).wf(),
            final(self)@ == old(self)@.set(key@, value@),
            final(self).state.file@ == with_payload(old(self).state.file@, value@),
            final(self).state.writer.map() == old(self).state.writer.map().insert(
                key@,
                (Index { offset: payload_offset(old(self).state.file@) as u64, length: value@.len() as u64 }),
            ),
            final(self).state.reader == old(self).state.reader,
            final(self).state.writer.dirty,
            final(self).name == old(self).name,
    {
        let ghost st = self.state;
        let ghost f0 = self.state.file@;
        let ghost v = value@;
        let ghost k = key@;
        let length = value.len() as u64;
        let data_writer = DataWriter { data: value };
        let offset = data_writer.write(&mut self.state.file);
        let idx = Index { offset, length };
        proof {
            lemma_payload_round_trip(f0, v);
            lemma_state_extended(st, self.state.file@);
        }
        let ghost m0 = self.state.writer.map();
        self.state.writer.insert(key, idx);
        self.state.writer.dirty = true;
        proof {
            let f1 = self.state.file@;
            lemma_entries_readable(self.state.writer, m0, k, idx, f1);
            assert(value_of(f1, idx) == v);
            assert(self.state.working() =~= st.working().insert(k, v)) by {
                assert forall|q: Seq<u8>| #[trigger] self.state.working().contains_key(q) implies self.state.working()[q]
                    == st.working().insert(k, v)[q] by {
                    if q != k {
                        assert(contents(f1, m0)[q] == st.working()[q]);
                    }
                }
            }
        }
    }

    /// Removes `key` for the holding transaction and returns the value it had.
    pub fn remove(&mut self, key: &Vec<u8>) -> (r: Option<Vec<u8>>)
        requires
            old(self).wf(),
        ensures
            final(self).wf(),
            final(self)@ == old(self)@.remove(key@),
            final(self).state.file == old(self).state.file,
            final(self).state.writer.map() == old(self).state.writer.map().remove(key@),
            final(self).state.reader == old(self).state.reader,
            final(self).state.writer.dirty,
            match r {
                Some(v) => old(self)@.read(key@) == Some(v@),
                None => old(self)@.read(key@) is None,
            },
    {
        let r = self.get(key);
        let ghost st = self.state;
        let ghost m0 = self.state.writer.map();
        proof {
            lemma_map_readable(st.writer, st.file@);
        }
        self.state.writer.remove(key);
        self.state.writer.dirty = true;
        proof {
            let f = st.file@;
            let some_idx = Index { offset: 0, length: 0 };
            assert(readable(f, some_idx));
            lemma_entries_readable(self.state.writer, m0, key@, some_idx, f);
            assert(self.state.working() =~= st.working().remove(key@));
        }
        r
    }

    /// The values of the keys in the range, in key order, as the holding
    /// transaction sees them.
    pub fn scan(&mut self, lo: &KeyBound, hi: &KeyBound) -> (r: Vec<Vec<u8>>)
        requires
            old(self).wf(),
        ensures
            final(self).wf(),
            final(self)@ == old(self)@,
            final(self).state.file == old(self).state.file,
            final(self).state.writer == old(self).state.writer,
            final(self).state.reader == old(self).state.reader,
            r@.len() == scan_spec(old(self).state.writer.entries(), *lo, *hi).len(),
            forall|i: int|
                0 <= i < r@.len() ==> (#[trigger] r@[i])@ == value_of(
                    old(self).state.file@,
                    scan_spec(old(self).state.writer.entries(), *lo, *hi)[i],
                ),
    {
        let ghost st = self.state;
        let idxs = self.state.writer.range(lo, hi);
        proof {
            lemma_scan_members(st.writer.entries(), *lo, *hi);
        }
        let mut out: Vec<Vec<u8>> = Vec::new();
        let mut i: usize = 0;
        while i < idxs.len()
            invariant
                i <= idxs@.len(),
                self.wf(),
                self.state.file == st.file,
                self.state.reader == st.reader,
                self.state.writer == st.writer,
                idxs@ == scan_spec(st.writer.entries(), *lo, *hi),
                forall|j: int|
                    0 <= j < idxs@.len() ==> exists|p: int|
                        0 <= p < st.writer.entries().len() && st.writer.entries()[p].1
                            == #[trigger] idxs@[j],
                out@.len() == i,
                forall|j: int|
                    0 <= j < i ==> (#[trigger] out@[j])@ == value_of(st.file@, idxs@[j]),
            decreases idxs@.len() - i,
        {
            let idx = idxs[i];
            proof {
                let p = choose|p: int|
                    0 <= p < st.writer.entries().len() && st.writer.entries()[p].1 == idxs@[i as int];
            }
            let v = self.value_at(idx);
            out.push(v);
            i += 1;
        }
        out
    }

    /// Publishes the working index as the committed one. Where it changed,
    /// an index snapshot with `body` is appended to the file first.
    pub fn commit(&mut self, body: Vec<u8>)
        requires
            old(self).wf(),
            body@.len() <= u32::MAX,
        ensures
            final(self).wf(),
            final(self)@ == old(self)@.commit(),
            final(self).state.file@ == (if old(self).state.writer.dirty {
                with_snapshot(old(self).state.file@, body@)
            } else {
                old(self).state.file@
            }),
            final(self).state.reader.map() == old(self).state.writer.map(),
            final(self).state.writer.map() == old(self).state.writer.map(),
            !final(self).state.writer.dirty,
            final(self).name == old(self).name,
    {
        let ghost st = self.state;
        proof {
            assert(!st.writer.dirty ==> st.reader.map() == st.writer.map());
        }
        if self.state.writer.dirty {
            let state_writer = StateWriter { body };
            state_writer.write(&mut self.state.file);
            proof {
                let f0 = st.file@;
                let f1 = self.state.file@;
                assert(f0.is_prefix_of(f1)) by {
                    assert(f1.subrange(0, f0.len() as int) =~= f0);
                }
                lemma_state_extended(st, f1);
            }
            self.state.writer.dirty = false;
            self.state.reader = self.state.writer.duplicate();
        }
    }

    /// Appends an index snapshot of the working index, as JSON, to the
    /// file where that index changed, without publishing it. Where the body
    /// is too long for its length field, nothing changes and it fails.
    pub fn write_snapshot(&mut self) -> (r: Result<(), Error>)
        requires
            old(self).wf(),
        ensures
            final(self).wf(),
            final(self)@ == old(self)@,
            final(self).state.reader == old(self).state.reader,
            final(self).state.writer == old(self).state.writer,
            final(self).name == old(self).name,
            match r {
                Ok(()) => final(self).state.file@ == (if old(self).state.writer.dirty {
                    with_snapshot(
                        old(self).state.file@,
                        index_json(index_triples(old(self).state.writer.entries())),
                    )
                } else {
                    old(self).state.file@
                }),
                Err(e) => e == Error::SnapshotTooLarge && old(self).state.writer.dirty && index_json(
                    index_triples(old(self).state.writer.entries()),
                ).len() > u32::MAX && *final(self) == *old(self),
            },
    {
        if !self.state.writer.dirty {
            return Ok(());
        }
        let body = encode_index(&self.state.writer);
        if body.len() > u32::MAX as usize {
            return Err(Error::SnapshotTooLarge);
        }
        let ghost st = self.state;
        let state_writer = StateWriter { body };
        state_writer.write(&mut self.state.file);
        proof {
            let f0 = st.file@;
            let f1 = self.state.file@;
            assert(f0.is_prefix_of(f1)) by {
                assert(f1.subrange(0, f0.len() as int) =~= f0);
            }
            lemma_state_extended(st, f1);
        }
        Ok(())
    }

    /// Makes the working index the committed one that readers see.
    pub fn publish(&mut self)
        requires
            old(self).wf(),
        ensures
            final(self).wf(),
            final(self)@ == old(self)@.commit(),
            final(self).state.file == old(self).state.file,
            final(self).state.reader.map() == old(self).state.writer.map(),
            final(self).state.writer.map() == old(self).state.writer.map(),
            !final(self).state.writer.dirty,
            final(self).name == old(self).name,
    {
        self.state.writer.dirty = false;
        self.state.reader = self.state.writer.duplicate();
    }

    /// Publishes the working index as the committed one. Where it changed,
    /// an index snapshot whose body is the working index as JSON is appended
    /// to the file first; where that body is too long for its length field,
    /// nothing changes and the commit fails.
    pub fn commit_index(&mut self) -> (r: Result<(), Error>)
        requires
            old(self).wf(),
        ensures
            final(self).wf(),
            match r {
                Ok(()) => {
                    &&& final(self)@ == old(self)@.commit()
                    &&& final(self).state.file@ == (if old(self).state.writer.dirty {
                        with_snapshot(
                            old(self).state.file@,
                            index_json(index_triples(old(self).state.writer.entries())),
                        )
                    } else {
                        old(self).state.file@
                    })
                    &&& final(self).state.reader.map() == old(self).state.writer.map()
                    &&& final(self).state.writer.map() == old(self).state.writer.map()
                    &&& !final(self).state.writer.dirty
                },
                Err(e) => e == Error::SnapshotTooLarge && old(self).state.writer.dirty && index_json(
                    index_triples(old(self).state.writer.entries()),
                ).len() > u32::MAX && *final(self) == *old(self),
            },
    {
        self.write_snapshot()?;
        self.publish();
        Ok(())
    }

    /// Discards the holding transaction's changes: the working index becomes
    /// the committed one again.
    pub fn rollback(&mut self)
        requires
            old(self).wf(),
        ensures
            final(self).wf(),
            final(self)@ == old(self)@.rollback(),
            final(self).state.file == old(self).state.file,
            final(self).state.writer.map() == old(self).state.reader.map(),
            final(self).state.reader == old(self).state.reader,
            !final(self).state.writer.dirty,
            final(self).name == old(self).name,
    {
        self.state.writer = self.state.reader.duplicate();
    }
}

} // verus!
