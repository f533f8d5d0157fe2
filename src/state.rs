//! A tree's state: where its values and index snapshots live in its file,
//! how they are written and read back, and the sorted index that maps each
//! key to its value's place.
use vstd::prelude::*;
use crate::error::Error;
use crate::lru_map::LruMap;
use crate::keys::{
    above_end, below_start, compare_keys, in_range, key_lt, lemma_key_lt_irreflexive,
    lemma_key_lt_total, lemma_key_lt_transitive, KeyBound,
};
use core::cmp::Ordering;
use crate::paging::{
    drop_torn_records, find_last_complete_record, is_complete_record, last_complete_record,
    lemma_complete_at, lemma_complete_below, lemma_complete_skip, lemma_last_record_facts,
    no_torn_record, record_body, trimmed_from,
    append_paged, be_bytes, be_decode, lemma_be_round_trip, be_encode, be_value, encode_paged, 
    last_record_page, lemma_encoded_tags, page_tag, lemma_last_record_at,
    lemma_last_record_skip, lemma_read_bound, lemma_read_encoded, lemma_read_extended, pad_to_page, page_count, pow256, read_paged,
    read_paged_exec, round_up, PAGE_LEN, TAG_CONTINUATION, TAG_PAYLOAD, TAG_RECORD,
};

verus! {

/// Where a value lies in its tree's file: the position of its first content
/// byte and its length.
#[derive(Debug, Clone, Copy, PartialEq, Eq, Structural)]
pub struct Index {
    pub offset: u64,
    pub length: u64,
}

/// Number of values a tree's cache holds.
pub const CACHE_CAPACITY: usize = 1024;

/// The file holds a value at `idx`.
pub open spec fn readable(file: Seq<u8>, idx: Index) -> bool {
    read_paged(file, idx.offset as int, idx.length as nat, TAG_PAYLOAD) is Some
}

/// The value the file holds at `idx`.
pub open spec fn value_of(file: Seq<u8>, idx: Index) -> Seq<u8> {
    read_paged(file, idx.offset as int, idx.length as nat, TAG_PAYLOAD).unwrap()
}

/// The key-to-value map that an index map describes in `file`.
pub open spec fn contents(file: Seq<u8>, m: Map<Seq<u8>, Index>) -> Map<Seq<u8>, Seq<u8>> {
    Map::new(|k: Seq<u8>| m.contains_key(k), |k: Seq<u8>| value_of(file, m[k]))
}

/// `n` zero bytes.
pub open spec fn zeros(n: int) -> Seq<u8> {
    Seq::new(n as nat, |i: int| 0u8)
}

/// `f` extended with zero bytes up to the next page boundary.
pub open spec fn padded(f: Seq<u8>) -> Seq<u8> {
    f + zeros(round_up(f.len() as int) - f.len())
}

/// The file just before a value's first byte: a payload page is continued
/// where the file ends inside one; otherwise a fresh payload page is begun,
/// after padding an unfinished page of another kind.
pub open spec fn payload_prefix(f: Seq<u8>) -> Seq<u8> {
    let len = f.len() as int;
    let page = len / (PAGE_LEN as int) * (PAGE_LEN as int);
    if len != page && f[page] != TAG_PAYLOAD {
        padded(f).push(TAG_PAYLOAD)
    } else if len == page {
        f.push(TAG_PAYLOAD)
    } else {
        f
    }
}

/// Position of the first byte of a value appended to `f`.
pub open spec fn payload_offset(f: Seq<u8>) -> int {
    payload_prefix(f).len() as int
}

/// `f` after the value `d` is appended.
pub open spec fn with_payload(f: Seq<u8>, d: Seq<u8>) -> Seq<u8> {
    payload_prefix(f) + encode_paged(d, payload_offset(f), TAG_PAYLOAD)
}

/// `f` after an index snapshot with body `b` is appended: a record page
/// holding the body's length in four bytes, then the body.
pub open spec fn with_snapshot(f: Seq<u8>, b: Seq<u8>) -> Seq<u8> {
    let s = round_up(f.len() as int);
    padded(f) + seq![TAG_RECORD] + be_bytes(b.len(), 4) + encode_paged(b, s + 5, TAG_CONTINUATION)
}

/// The body of the last index snapshot that `f` holds whole; `None` where
/// it holds none. A snapshot cut short by a crash is passed over.
pub open spec fn snapshot_of(f: Seq<u8>) -> Option<Seq<u8>> {
    match last_complete_record(f, page_count(f), 5) {
        None => None,
        Some(p) => record_body(f, p, 5),
    }
}

/// Appends one value to a tree file.
pub struct DataWriter {
    pub data: Vec<u8>,
}

impl DataWriter {
    /// Appends the value and returns the position of its first byte.
    pub fn write(&self, file: &mut Vec<u8>) -> (r: u64)
        ensures
            final(file)@ == with_payload(old(file)@, self.data@),
            r == payload_offset(old(file)@),
    {
        let len = file.len();
        let page = len / PAGE_LEN * PAGE_LEN;
        if len != page && file[page] != TAG_PAYLOAD {
            pad_to_page(file);
            file.push(TAG_PAYLOAD);
        } else if len == page {
            file.push(TAG_PAYLOAD);
        }
        assert(file@ =~= payload_prefix(old(file)@));
        let offset = file.len();
        append_paged(file, &self.data, TAG_PAYLOAD);
        offset as u64
    }
}

/// Reads one value back from a tree file.
pub struct DataRetriever {
    pub offset: u64,
    pub length: u64,
}

impl DataRetriever {
    /// The value's bytes; `None` where the file does not hold a value there.
    pub fn retrieve(&self, file: &Vec<u8>) -> (r: Option<Vec<u8>>)
        ensures
            match r {
                Some(v) => read_paged(file@, self.offset as int, self.length as nat, TAG_PAYLOAD)
                    == Some(v@),
                None => read_paged(
                    file@,
                    self.offset as int,
                    self.length as nat,
                    TAG_PAYLOAD,
                ) is None,
            },
    {
        if self.length == 0 {
            return Some(Vec::new());
        }
        let len = file.len();
        if self.offset >= len as u64 || self.length > len as u64 {
            proof {
                if read_paged(file@, self.offset as int, self.length as nat, TAG_PAYLOAD) is Some {
                    lemma_read_bound(file@, self.offset as int, self.length as nat, TAG_PAYLOAD);
                }
            }
            return None;
        }
        read_paged_exec(file, self.offset as usize, self.length as usize, TAG_PAYLOAD)
    }
}

/// Appends an index snapshot to a tree file.
pub struct StateWriter {
    pub body: Vec<u8>,
}

impl StateWriter {
    pub fn write(&self, file: &mut Vec<u8>)
        requires
            self.body@.len() <= u32::MAX,
        ensures
            final(file)@ == with_snapshot(old(file)@, self.body@),
    {
        let ghost f0 = old(file)@;
        pad_to_page(file);
        assert(file@ =~= padded(f0));
        file.push(TAG_RECORD);
        let mut len = be_encode(self.body.len() as u64, 4);
        file.append(&mut len);
        proof {
            reveal_with_fuel(pow256, 5);
            lemma_be_round_trip(self.body@.len(), 4);
        }
        assert(file@ =~= padded(f0) + seq![TAG_RECORD] + be_bytes(self.body@.len(), 4));
        assert(file@.len() == round_up(f0.len() as int) + 5);
        append_paged(file, &self.body, TAG_CONTINUATION);
    }
}

/// Recovers a tree's index from its file.
pub struct StateBuilder {
    pub file: Vec<u8>,
}

impl StateBuilder {
    /// The body of the file's last whole index snapshot, found by walking
    /// back page by page from the end; `None` where the file holds none.
    pub fn recover(&self) -> (r: Option<Vec<u8>>)
        ensures
            match r {
                Some(b) => snapshot_of(self.file@) == Some(b@),
                None => snapshot_of(self.file@) is None,
            },
    {
        match find_last_complete_record(&self.file, 5) {
            Some((_, b)) => Some(b),
            None => None,
        }
    }
}

/// A value appended to a file reads back unchanged at the offset the append
/// returned, and the file's earlier bytes are kept.
pub proof fn lemma_payload_round_trip(f: Seq<u8>, d: Seq<u8>)
    ensures
        read_paged(with_payload(f, d), payload_offset(f), d.len(), TAG_PAYLOAD) == Some(d),
        f.is_prefix_of(with_payload(f, d)),
{
    let g = payload_prefix(f);
    lemma_read_encoded(g, d, seq![], TAG_PAYLOAD);
    assert(with_payload(f, d) =~= g + encode_paged(d, g.len() as int, TAG_PAYLOAD) + seq![]);
    assert(f.is_prefix_of(g));
}

/// A value that can be read from a file still reads the same after any later
/// value or snapshot is appended.
pub proof fn lemma_value_kept(f: Seq<u8>, d: Seq<u8>, b: Seq<u8>, pos: int, len: nat)
    requires
        read_paged(f, pos, len, TAG_PAYLOAD) is Some,
    ensures
        read_paged(with_payload(f, d), pos, len, TAG_PAYLOAD) == read_paged(
            f,
            pos,
            len,
            TAG_PAYLOAD,
        ),
        read_paged(with_snapshot(f, b), pos, len, TAG_PAYLOAD) == read_paged(
            f,
            pos,
            len,
            TAG_PAYLOAD,
        ),
{
    lemma_payload_round_trip(f, d);
    let g = with_payload(f, d);
    assert(g =~= f + g.skip(f.len() as int));
    lemma_read_extended(f, g.skip(f.len() as int), pos, len, TAG_PAYLOAD);
    let h = with_snapshot(f, b);
    assert(h =~= f + h.skip(f.len() as int));
    lemma_read_extended(f, h.skip(f.len() as int), pos, len, TAG_PAYLOAD);
}

/// Recovering a file right after a snapshot was appended gives that
/// snapshot's body.
pub proof fn lemma_snapshot_round_trip(f: Seq<u8>, b: Seq<u8>)
    requires
        b.len() <= u32::MAX,
    ensures
        snapshot_of(with_snapshot(f, b)) == Some(b),
        no_torn_record(with_snapshot(f, b), 5),
{
    let s = round_up(f.len() as int);
    let p = ((f.len() + PAGE_LEN - 1) / (PAGE_LEN as int)) as nat;
    assert(s == p * PAGE_LEN);
    reveal_with_fuel(pow256, 5);
    lemma_be_round_trip(b.len(), 4);
    let head = padded(f) + seq![TAG_RECORD] + be_bytes(b.len(), 4);
    let enc = encode_paged(b, s + 5, TAG_CONTINUATION);
    let g = with_snapshot(f, b);
    assert(g =~= head + enc + seq![]);
    assert(head.len() == s + 5);
    assert(g[s] == TAG_RECORD);
    assert(page_count(g) > p);
    assert forall|q: nat| p < q < page_count(g) && q * PAGE_LEN < g.len() implies #[trigger] page_tag(
        g,
        q,
    ) != TAG_RECORD by {
        assert(q * PAGE_LEN >= s + PAGE_LEN) by (nonlinear_arith)
            requires
                p < q,
                s == p * PAGE_LEN,
                PAGE_LEN == 1024,
        ;
        lemma_encoded_tags(b, s + 5, TAG_CONTINUATION, q * PAGE_LEN);
    }
    lemma_last_record_at(g, page_count(g), p);
    assert(g.subrange(s + 1, s + 5) =~= be_bytes(b.len(), 4));
    lemma_read_encoded(head, b, seq![], TAG_CONTINUATION);
    assert(record_body(g, p, 5) == Some(b));
    lemma_complete_at(g, page_count(g), p, 5);
}

/// Appending a value does not change the snapshot that recovery finds, in
/// a file that holds no record cut short after its last whole one.
pub proof fn lemma_payload_keeps_snapshot(f: Seq<u8>, d: Seq<u8>)
    requires
        no_torn_record(f, 5),
    ensures
        snapshot_of(with_payload(f, d)) == snapshot_of(f),
        no_torn_record(with_payload(f, d), 5),
{
    let g = with_payload(f, d);
    let len = f.len() as int;
    let pre = payload_prefix(f);
    let off = payload_offset(f);
    lemma_payload_round_trip(f, d);
    let tail = g.skip(len);
    assert(g =~= f + tail);
    lemma_last_record_facts(f, page_count(f));
    lemma_complete_below(f, page_count(f), 5);
    assert(page_count(f) <= page_count(g));
    assert forall|q: nat| q < page_count(g) && q * PAGE_LEN < g.len() && page_tag(f, q) != TAG_RECORD
        implies #[trigger] page_tag(g, q) != TAG_RECORD by {
        let k = q * PAGE_LEN;
        if k < len {
            assert(g[k] == f[k]);
        } else if k < pre.len() {
            assert(g[k] == pre[k]);
            assert(pre[k] == TAG_PAYLOAD);
        } else {
            lemma_encoded_tags(d, off, TAG_PAYLOAD, k);
        }
    }
    assert forall|q: nat| page_count(f) <= q < page_count(g) && q * PAGE_LEN < g.len() implies #[trigger] page_tag(
        g,
        q,
    ) != TAG_RECORD by {
        assert(q * PAGE_LEN >= len) by (nonlinear_arith)
            requires
                q >= (len + 1023) / 1024,
        ;
        assert(page_tag(f, q) != TAG_RECORD || q * PAGE_LEN >= len);
        let k = q * PAGE_LEN;
        if k < pre.len() {
            assert(g[k] == pre[k]);
            assert(pre[k] == TAG_PAYLOAD);
        } else {
            lemma_encoded_tags(d, off, TAG_PAYLOAD, k);
        }
    }
    match last_record_page(f, page_count(f)) {
        None => {
            assert forall|q: nat| q < page_count(g) && q * PAGE_LEN < g.len() implies #[trigger] page_tag(
                g,
                q,
            ) != TAG_RECORD by {
                if q < page_count(f) {
                    assert(q * 1024 < len) by (nonlinear_arith)
                        requires
                            q < (len + 1023) / 1024,
                    ;
                    assert(page_tag(f, q) != TAG_RECORD);
                }
            }
            lemma_last_record_skip(g, 0, page_count(g));
            assert forall|q: nat| 0 <= q < page_count(g) implies !#[trigger] is_complete_record(
                g,
                q,
                5,
            ) by {
                if q * PAGE_LEN < g.len() {
                    assert(page_tag(g, q) != TAG_RECORD);
                }
            }
            lemma_complete_skip(g, 0, page_count(g), 5);
        },
        Some(p) => {
            let s = p * PAGE_LEN;
            assert(is_complete_record(f, p, 5));
            assert(g.subrange(s + 1, s + 5) =~= f.subrange(s + 1, s + 5));
            let n = be_value(f.subrange(s + 1, s + 5));
            lemma_read_extended(f, tail, s + 5, n, TAG_CONTINUATION);
            assert(record_body(g, p, 5) == record_body(f, p, 5));
            assert(page_tag(g, p) == page_tag(f, p));
            assert forall|q: nat| p < q < page_count(g) && q * PAGE_LEN < g.len() implies #[trigger] page_tag(
                g,
                q,
            ) != TAG_RECORD by {
                if q < page_count(f) {
                    assert(q * 1024 < len) by (nonlinear_arith)
                        requires
                            q < (len + 1023) / 1024,
                    ;
                    assert(page_tag(f, q) != TAG_RECORD);
                }
            }
            lemma_last_record_at(g, page_count(g), p);
            lemma_complete_at(g, page_count(g), p, 5);
        },
    }
}

/// `f` after each value of `ds` is appended in turn.
pub open spec fn with_payloads(f: Seq<u8>, ds: Seq<Seq<u8>>) -> Seq<u8>
    decreases ds.len(),
{
    if ds.len() == 0 {
        f
    } else {
        with_payload(with_payloads(f, ds.drop_last()), ds.last())
    }
}

/// The offsets those appends return, in turn.
pub open spec fn payload_offsets(f: Seq<u8>, ds: Seq<Seq<u8>>) -> Seq<int>
    decreases ds.len(),
{
    if ds.len() == 0 {
        seq![]
    } else {
        payload_offsets(f, ds.drop_last()).push(payload_offset(with_payloads(f, ds.drop_last())))
    }
}

/// After any number of values are appended in turn and a snapshot is
/// appended after them, every value reads back at the offset its append
/// returned, and recovery gives the snapshot's body.
pub proof fn lemma_values_read_back(f: Seq<u8>, ds: Seq<Seq<u8>>, b: Seq<u8>)
    requires
        b.len() <= u32::MAX,
    ensures
        payload_offsets(f, ds).len() == ds.len(),
        forall|i: int|
            0 <= i < ds.len() ==> read_paged(
                with_payloads(f, ds),
                #[trigger] payload_offsets(f, ds)[i],
                ds[i].len(),
                TAG_PAYLOAD,
            ) == Some(ds[i]),
        forall|i: int|
            0 <= i < ds.len() ==> read_paged(
                with_snapshot(with_payloads(f, ds), b),
                #[trigger] payload_offsets(f, ds)[i],
                ds[i].len(),
                TAG_PAYLOAD,
            ) == Some(ds[i]),
        snapshot_of(with_snapshot(with_payloads(f, ds), b)) == Some(b),
    decreases ds.len(),
{
    let g = with_payloads(f, ds);
    if ds.len() > 0 {
        let pre = ds.drop_last();
        let g0 = with_payloads(f, pre);
        lemma_values_read_back(f, pre, b);
        lemma_payload_round_trip(g0, ds.last());
        assert forall|i: int| 0 <= i < ds.len() implies read_paged(
            g,
            #[trigger] payload_offsets(f, ds)[i],
            ds[i].len(),
            TAG_PAYLOAD,
        ) == Some(ds[i]) by {
            if i < pre.len() {
                assert(payload_offsets(f, ds)[i] == payload_offsets(f, pre)[i]);
                assert(ds[i] == pre[i]);
                lemma_value_kept(g0, ds.last(), b, payload_offsets(f, pre)[i], pre[i].len());
            }
        }
    }
    assert forall|i: int| 0 <= i < ds.len() implies read_paged(
        with_snapshot(g, b),
        #[trigger] payload_offsets(f, ds)[i],
        ds[i].len(),
        TAG_PAYLOAD,
    ) == Some(ds[i]) by {
        assert(read_paged(g, payload_offsets(f, ds)[i], ds[i].len(), TAG_PAYLOAD) == Some(ds[i]));
        lemma_value_kept(g, seq![], b, payload_offsets(f, ds)[i], ds[i].len());
    }
    lemma_snapshot_round_trip(g, b);
}

/// Keys strictly increase along `s`.
pub open spec fn sorted(s: Seq<(Seq<u8>, Index)>) -> bool {
    forall|i: int, j: int| 0 <= i < j < s.len() ==> key_lt(#[trigger] s[i].0, #[trigger] s[j].0)
}

/// The map from each key of `s` to its index.
pub open spec fn key_map(s: Seq<(Seq<u8>, Index)>) -> Map<Seq<u8>, Index> {
    Map::new(
        |k: Seq<u8>| exists|i: int| 0 <= i < s.len() && s[i].0 == k,
        |k: Seq<u8>| s[key_pos(s, k)].1,
    )
}

/// A position of `k` in `s`, where there is one.
pub open spec fn key_pos(s: Seq<(Seq<u8>, Index)>, k: Seq<u8>) -> int {
    choose|i: int| 0 <= i < s.len() && s[i].0 == k
}

/// The indexes of the entries of `s` whose keys lie in the range, in order.
pub open spec fn scan_spec(s: Seq<(Seq<u8>, Index)>, lo: KeyBound, hi: KeyBound) -> Seq<Index>
    decreases s.len(),
{
    if s.len() == 0 {
        seq![]
    } else {
        (if in_range(s[0].0, lo, hi) {
            seq![s[0].1]
        } else {
            seq![]
        }) + scan_spec(s.skip(1), lo, hi)
    }
}

pub proof fn lemma_key_map(s: Seq<(Seq<u8>, Index)>)
    requires
        sorted(s),
    ensures
        forall|i: int|
            0 <= i < s.len() ==> key_map(s).contains_key(#[trigger] s[i].0) && key_map(s)[s[i].0]
                == s[i].1,
        forall|k: Seq<u8>|
            key_map(s).contains_key(k) ==> exists|i: int| 0 <= i < s.len() && s[i].0 == k,
{
    assert forall|i: int| 0 <= i < s.len() implies key_map(s).contains_key(#[trigger] s[i].0)
        && key_map(s)[s[i].0] == s[i].1 by {
        let k = s[i].0;
        assert(exists|j: int| 0 <= j < s.len() && s[j].0 == k);
        assert(key_map(s).contains_key(k));
        let j = key_pos(s, k);
        assert(0 <= j < s.len() && s[j].0 == k);
        assert(key_map(s)[k] == s[j].1);
        if j != i {
            lemma_key_lt_irreflexive(k);
            if j < i {
                assert(key_lt(s[j].0, s[i].0));
            } else {
                assert(key_lt(s[i].0, s[j].0));
            }
        }
    }
}

proof fn lemma_scan_skip(s: Seq<(Seq<u8>, Index)>, a: int, lo: KeyBound, hi: KeyBound)
    requires
        0 <= a <= s.len(),
        forall|i: int| 0 <= i < a ==> !in_range(#[trigger] s[i].0, lo, hi),
    ensures
        scan_spec(s, lo, hi) == scan_spec(s.skip(a), lo, hi),
    decreases a,
{
    if a > 0 {
        let t = s.skip(1);
        assert forall|i: int| 0 <= i < a - 1 implies !in_range(#[trigger] t[i].0, lo, hi) by {
            assert(t[i] == s[i + 1]);
        }
        lemma_scan_skip(t, a - 1, lo, hi);
        assert(t.skip(a - 1) =~= s.skip(a));
        assert(seq![] + scan_spec(t, lo, hi) =~= scan_spec(t, lo, hi));
    } else {
        assert(s.skip(0) =~= s);
    }
}

proof fn lemma_scan_past_end(s: Seq<(Seq<u8>, Index)>, lo: KeyBound, hi: KeyBound)
    requires
        sorted(s),
        s.len() > 0,
        above_end(s[0].0, hi),
    ensures
        scan_spec(s, lo, hi) == Seq::<Index>::empty(),
    decreases s.len(),
{
    let t = s.skip(1);
    if t.len() > 0 {
        assert(key_lt(s[0].0, s[1].0));
        assert(above_end(t[0].0, hi)) by {
            match hi {
                KeyBound::Included(x) => {
                    lemma_key_lt_transitive(x@, s[0].0, s[1].0);
                },
                KeyBound::Excluded(x) => {
                    if key_lt(s[1].0, x@) {
                        lemma_key_lt_transitive(s[0].0, s[1].0, x@);
                    }
                },
                KeyBound::Unbounded => {},
            }
        }
        assert(sorted(t)) by {
            assert forall|i: int, j: int| 0 <= i < j < t.len() implies key_lt(
                #[trigger] t[i].0,
                #[trigger] t[j].0,
            ) by {
                assert(t[i] == s[i + 1] && t[j] == s[j + 1]);
            }
        }
        lemma_scan_past_end(t, lo, hi);
    }
    assert(seq![] + scan_spec(t, lo, hi) =~= scan_spec(t, lo, hi));
}

fn is_below_start(k: &Vec<u8>, lo: &KeyBound) -> (r: bool)
    ensures
        r == below_start(k@, *lo),
{
    match lo {
        KeyBound::Included(x) => matches!(compare_keys(k, x), Ordering::Less),
        KeyBound::Excluded(x) => !matches!(compare_keys(x, k), Ordering::Less),
        KeyBound::Unbounded => false,
    }
}

fn is_above_end(k: &Vec<u8>, hi: &KeyBound) -> (r: bool)
    ensures
        r == above_end(k@, *hi),
{
    match hi {
        KeyBound::Included(x) => matches!(compare_keys(x, k), Ordering::Less),
        KeyBound::Excluded(x) => !matches!(compare_keys(k, x), Ordering::Less),
        KeyBound::Unbounded => false,
    }
}

/// A snapshot of a tree's index: each key's value position, sorted by key,
/// and whether it differs from what was last written to the file.
pub struct VersionedState {
    pub indexes: Vec<(Vec<u8>, Index)>,
    pub dirty: bool,
}

impl VersionedState {
    pub open spec fn entries(&self) -> Seq<(Seq<u8>, Index)> {
        self.indexes@.map_values(|e: (Vec<u8>, Index)| (e.0@, e.1))
    }

    pub open spec fn wf(&self) -> bool {
        sorted(self.entries())
    }

    /// The key-to-index map this snapshot holds.
    pub open spec fn map(&self) -> Map<Seq<u8>, Index> {
        key_map(self.entries())
    }

    pub fn new() -> (r: Self)
        ensures
            r.wf(),
            r.entries().len() == 0,
            r.map() == Map::<Seq<u8>, Index>::empty(),
            !r.dirty,
    {
        let r = VersionedState { indexes: Vec::new(), dirty: false };
        assert(r.map() =~= Map::<Seq<u8>, Index>::empty());
        r
    }

    /// A copy with the same entries and flag.
    pub fn duplicate(&self) -> (r: Self)
        ensures
            r.entries() == self.entries(),
            r.dirty == self.dirty,
    {
        let mut indexes: Vec<(Vec<u8>, Index)> = Vec::new();
        let mut i: usize = 0;
        while i < self.indexes.len()
            invariant
                i <= self.indexes@.len(),
                indexes@.len() == i,
                forall|j: int|
                    0 <= j < i ==> (#[trigger] indexes@[j]).0@ == self.indexes@[j].0@
                        && indexes@[j].1 == self.indexes@[j].1,
            decreases self.indexes@.len() - i,
        {
            let key = self.indexes[i].0.clone();
            assert(key@ =~= self.indexes@[i as int].0@);
            indexes.push((key, self.indexes[i].1));
            i += 1;
        }
        let r = VersionedState { indexes, dirty: self.dirty };
        assert(r.entries() =~= self.entries());
        r
    }

    /// Where `key` is, or where it would be inserted.
    pub fn find(&self, key: &Vec<u8>) -> (r: Result<usize, usize>)
        requires
            self.wf(),
        ensures
            match r {
                Ok(p) => p < self.entries().len() && self.entries()[p as int].0 == key@,
                Err(p) => p <= self.entries().len() && forall|i: int|
                    p <= i < self.entries().len() ==> key_lt(key@, #[trigger] self.entries()[i].0),
            },
            forall|i: int|
                0 <= i < (match r {
                    Ok(p) => p,
                    Err(p) => p,
                }) ==> key_lt(#[trigger] self.entries()[i].0, key@),
    {
        let ghost s = self.entries();
        let mut lo: usize = 0;
        let mut hi: usize = self.indexes.len();
        while lo < hi
            invariant
                lo <= hi <= s.len(),
                s.len() == self.indexes@.len(),
                s == self.entries(),
                sorted(s),
                forall|i: int| 0 <= i < lo ==> key_lt(#[trigger] s[i].0, key@),
                forall|i: int| hi <= i < s.len() ==> key_lt(key@, #[trigger] s[i].0),
            decreases hi - lo,
        {
            let mid = lo + (hi - lo) / 2;
            match compare_keys(&self.indexes[mid].0, key) {
                Ordering::Less => {
                    assert forall|i: int| 0 <= i <= mid implies key_lt(#[trigger] s[i].0, key@) by {
                        if i < mid {
                            lemma_key_lt_transitive(s[i].0, s[mid as int].0, key@);
                        }
                    }
                    lo = mid + 1;
                },
                Ordering::Equal => {
                    assert forall|i: int| 0 <= i < mid implies key_lt(#[trigger] s[i].0, key@) by {
                        assert(key_lt(s[i].0, s[mid as int].0));
                    }
                    return Ok(mid);
                },
                Ordering::Greater => {
                    assert forall|i: int| mid <= i < s.len() implies key_lt(key@, #[trigger] s[i].0) by {
                        if i > mid {
                            lemma_key_lt_transitive(key@, s[mid as int].0, s[i].0);
                        }
                    }
                    hi = mid;
                },
            }
        }
        Err(lo)
    }

    pub fn get(&self, key: &Vec<u8>) -> (r: Option<Index>)
        requires
            self.wf(),
        ensures
            match r {
                Some(idx) => self.map().contains_key(key@) && self.map()[key@] == idx,
                None => !self.map().contains_key(key@),
            },
    {
        proof {
            lemma_key_map(self.entries());
        }
        match self.find(key) {
            Ok(p) => Some(self.indexes[p].1),
            Err(p) => {
                proof {
                    if self.map().contains_key(key@) {
                        let i = choose|i: int|
                            0 <= i < self.entries().len() && self.entries()[i].0 == key@;
                        lemma_key_lt_irreflexive(key@);
                        if i >= p {
                            assert(key_lt(key@, self.entries()[i].0));
                        } else {
                            assert(key_lt(self.entries()[i].0, key@));
                        }
                    }
                }
                None
            },
        }
    }

    /// Sets the index of `key`.
    #[verifier::rlimit(40)]
    pub fn insert(&mut self, key: Vec<u8>, idx: Index)
        requires
            old(self).wf(),
        ensures
            final(self).wf(),
            final(self).map() == old(self).map().insert(key@, idx),
            final(self).dirty == old(self).dirty,
    {
        let ghost s = self.entries();
        let ghost k = key@;
        proof {
            lemma_key_map(s);
            lemma_key_lt_irreflexive(k);
        }
        match self.find(&key) {
            Ok(p) => {
                self.indexes.set(p, (key, idx));
                let ghost t = self.entries();
                assert(t =~= s.update(p as int, (k, idx)));
                assert(sorted(t)) by {
                    assert forall|i: int, j: int| 0 <= i < j < t.len() implies key_lt(
                        #[trigger] t[i].0,
                        #[trigger] t[j].0,
                    ) by {
                        assert(key_lt(s[i].0, s[j].0));
                    }
                }
                proof {
                    lemma_key_map(t);
                    assert forall|q: Seq<u8>| #[trigger] key_map(t).contains_key(q) <==> key_map(
                        s,
                    ).insert(k, idx).contains_key(q) by {
                        if key_map(s).contains_key(q) {
                            let i = choose|i: int| 0 <= i < s.len() && s[i].0 == q;
                            assert(t[i].0 == q);
                        }
                        if key_map(t).contains_key(q) {
                            let i = choose|i: int| 0 <= i < t.len() && t[i].0 == q;
                            assert(s[i].0 == q);
                        }
                    }
                    assert forall|q: Seq<u8>| #[trigger] key_map(t).contains_key(q) implies key_map(
                        t,
                    )[q] == key_map(s).insert(k, idx)[q] by {
                        let i = choose|i: int| 0 <= i < t.len() && t[i].0 == q;
                        assert(key_map(t)[t[i].0] == t[i].1);
                        if i != p {
                            assert(key_map(s)[s[i].0] == s[i].1);
                        }
                    }
                    assert(key_map(t) =~= key_map(s).insert(k, idx));
                }
            },
            Err(p) => {
                self.indexes.insert(p, (key, idx));
                let ghost t = self.entries();
                assert(t =~= s.insert(p as int, (k, idx)));
                assert(sorted(t)) by {
                    assert forall|i: int, j: int| 0 <= i < j < t.len() implies key_lt(
                        #[trigger] t[i].0,
                        #[trigger] t[j].0,
                    ) by {
                        if i < p && j > p {
                            lemma_key_lt_transitive(s[i].0, k, s[j - 1].0);
                        } else if i < p && j < p {
                            assert(key_lt(s[i].0, s[j].0));
                        } else if i > p {
                            assert(key_lt(s[i - 1].0, s[j - 1].0));
                        }
                    }
                }
                proof {
                    lemma_key_map(t);
                    assert forall|q: Seq<u8>| #[trigger] key_map(t).contains_key(q) <==> key_map(
                        s,
                    ).insert(k, idx).contains_key(q) by {
                        if key_map(s).contains_key(q) {
                            let i = choose|i: int| 0 <= i < s.len() && s[i].0 == q;
                            if i < p {
                                assert(t[i].0 == q);
                            } else {
                                assert(t[i + 1].0 == q);
                            }
                        }
                        if q == k {
                            assert(t[p as int].0 == q);
                        }
                        if key_map(t).contains_key(q) {
                            let i = choose|i: int| 0 <= i < t.len() && t[i].0 == q;
                            if i < p {
                                assert(s[i].0 == q);
                            } else if i > p {
                                assert(s[i - 1].0 == q);
                            }
                        }
                    }
                    assert forall|q: Seq<u8>| #[trigger] key_map(t).contains_key(q) implies key_map(
                        t,
                    )[q] == key_map(s).insert(k, idx)[q] by {
                        let i = choose|i: int| 0 <= i < t.len() && t[i].0 == q;
                        assert(key_map(t)[t[i].0] == t[i].1);
                        if i < p {
                            assert(key_map(s)[s[i].0] == s[i].1);
                            assert(q != k);
                        } else if i > p {
                            assert(key_map(s)[s[i - 1].0] == s[i - 1].1);
                            assert(q != k);
                        }
                    }
                    assert(key_map(t) =~= key_map(s).insert(k, idx));
                }
            },
        }
    }

    /// Removes `key`, returning its index if it was there.
    pub fn remove(&mut self, key: &Vec<u8>) -> (r: Option<Index>)
        requires
            old(self).wf(),
        ensures
            final(self).wf(),
            final(self).map() == old(self).map().remove(key@),
            final(self).dirty == old(self).dirty,
            match r {
                Some(idx) => old(self).map().contains_key(key@) && old(self).map()[key@] == idx,
                None => !old(self).map().contains_key(key@),
            },
    {
        let ghost s = self.entries();
        let ghost k = key@;
        proof {
            lemma_key_map(s);
            lemma_key_lt_irreflexive(k);
        }
        match self.find(key) {
            Ok(p) => {
                let (_, idx) = self.indexes.remove(p);
                let ghost t = self.entries();
                assert(t =~= s.remove(p as int));
                assert(sorted(t)) by {
                    assert forall|i: int, j: int| 0 <= i < j < t.len() implies key_lt(
                        #[trigger] t[i].0,
                        #[trigger] t[j].0,
                    ) by {
                        if i < p && j >= p {
                            assert(key_lt(s[i].0, s[j + 1].0));
                        } else if i < p {
                            assert(key_lt(s[i].0, s[j].0));
                        } else {
                            assert(key_lt(s[i + 1].0, s[j + 1].0));
                        }
                    }
                }
                proof {
                    lemma_key_map(t);
                    assert forall|q: Seq<u8>| #[trigger] key_map(t).contains_key(q) <==> key_map(
                        s,
                    ).remove(k).contains_key(q) by {
                        if key_map(s).contains_key(q) && q != k {
                            let i = choose|i: int| 0 <= i < s.len() && s[i].0 == q;
                            if i < p {
                                assert(t[i].0 == q);
                            } else {
                                assert(t[i - 1].0 == q);
                            }
                        }
                        if key_map(t).contains_key(q) {
                            let i = choose|i: int| 0 <= i < t.len() && t[i].0 == q;
                            if i < p {
                                assert(s[i].0 == q);
                                assert(key_lt(s[i].0, s[p as int].0));
                            } else {
                                assert(s[i + 1].0 == q);
                                assert(key_lt(s[p as int].0, s[i + 1].0));
                            }
                        }
                    }
                    assert forall|q: Seq<u8>| #[trigger] key_map(t).contains_key(q) implies key_map(
                        t,
                    )[q] == key_map(s).remove(k)[q] by {
                        let i = choose|i: int| 0 <= i < t.len() && t[i].0 == q;
                        assert(key_map(t)[t[i].0] == t[i].1);
                        if i < p {
                            assert(key_map(s)[s[i].0] == s[i].1);
                        } else {
                            assert(key_map(s)[s[i + 1].0] == s[i + 1].1);
                        }
                    }
                    assert(key_map(t) =~= key_map(s).remove(k));
                }
                Some(idx)
            },
            Err(p) => {
                proof {
                    if key_map(s).contains_key(k) {
                        let i = choose|i: int| 0 <= i < s.len() && s[i].0 == k;
                        if i >= p {
                            assert(key_lt(k, s[i].0));
                        } else {
                            assert(key_lt(s[i].0, k));
                        }
                    }
                    assert(key_map(s) =~= key_map(s).remove(k));
                }
                None
            },
        }
    }

    /// The indexes of the keys in the range, in key order.
    pub fn range(&self, lo: &KeyBound, hi: &KeyBound) -> (r: Vec<Index>)
        requires
            self.wf(),
        ensures
            r@ == scan_spec(self.entries(), *lo, *hi),
    {
        let ghost s = self.entries();
        let n = self.indexes.len();
        let start = match lo {
            KeyBound::Unbounded => 0,
            KeyBound::Included(x) => match self.find(x) {
                Ok(p) => p,
                Err(p) => p,
            },
            KeyBound::Excluded(x) => match self.find(x) {
                Ok(p) => {
                    proof {
                        lemma_key_lt_irreflexive(x@);
                        assert forall|i: int| 0 <= i < p implies !key_lt(x@, #[trigger] s[i].0) by {
                            lemma_key_lt_total(s[i].0, x@);
                        }
                    }
                    p + 1
                },
                Err(p) => {
                    proof {
                        assert forall|i: int| 0 <= i < p implies !key_lt(x@, #[trigger] s[i].0) by {
                            lemma_key_lt_total(s[i].0, x@);
                        }
                    }
                    p
                },
            },
        };
        assert forall|i: int| 0 <= i < start implies !in_range(#[trigger] s[i].0, *lo, *hi) by {
            assert(below_start(s[i].0, *lo));
        }
        proof {
            lemma_scan_skip(s, start as int, *lo, *hi);
        }
        let mut out: Vec<Index> = Vec::new();
        let mut i = start;
        while i < self.indexes.len()
            invariant
                start <= i <= s.len(),
                s.len() == self.indexes@.len(),
                s == self.entries(),
                sorted(s),
                scan_spec(s, *lo, *hi) == out@ + scan_spec(s.skip(i as int), *lo, *hi),
            decreases s.len() - i,
        {
            let ghost t = s.skip(i as int);
            assert(t.skip(1) =~= s.skip(i + 1));
            if is_above_end(&self.indexes[i].0, hi) {
                proof {
                    assert(sorted(t)) by {
                        assert forall|a: int, b: int| 0 <= a < b < t.len() implies key_lt(
                            #[trigger] t[a].0,
                            #[trigger] t[b].0,
                        ) by {
                            assert(t[a] == s[a + i] && t[b] == s[b + i]);
                        }
                    }
                    lemma_scan_past_end(t, *lo, *hi);
                    assert(out@ + seq![] =~= out@);
                }
                return out;
            }
            if !is_below_start(&self.indexes[i].0, lo) {
                out.push(self.indexes[i].1);
                assert(out@ + scan_spec(s.skip(i + 1), *lo, *hi) =~= concat3(
                    out@.drop_last(),
                    seq![s[i as int].1],
                    scan_spec(s.skip(i + 1), *lo, *hi),
                ));
            } else {
                assert(seq![] + scan_spec(s.skip(i + 1), *lo, *hi) =~= scan_spec(
                    s.skip(i + 1),
                    *lo,
                    *hi,
                ));
            }
            i += 1;
        }
        assert(s.skip(i as int).len() == 0);
        assert(out@ + seq![] =~= out@);
        out
    }
}

/// Each key of an index with its value's offset and length.
pub open spec fn index_triples(s: Seq<(Seq<u8>, Index)>) -> Seq<(Seq<u8>, u64, u64)> {
    s.map_values(|e: (Seq<u8>, Index)| (e.0, e.1.offset, e.1.length))
}

/// The JSON text of an object that maps each key to `{"offset", "length"}`.
pub uninterp spec fn index_json(entries: Seq<(Seq<u8>, u64, u64)>) -> Seq<u8>;

/// Relies on serde_json's `Map`, `Value` and `to_vec`: the JSON text of an
/// object from each key to its offset and length. The map is sorted by key,
/// so the text depends on the entries alone. A key that is not UTF-8 is
/// written with its invalid bytes replaced.
#[verifier::external_body]
pub(crate) fn encode_index(state: &VersionedState) -> (r: Vec<u8>)
    ensures
        r@ == index_json(index_triples(state.entries())),
{
    let mut map = serde_json::Map::new();
    for (key, index) in state.indexes.iter() {
        let mut entry = serde_json::Map::new();
        entry.insert("offset".to_string(), serde_json::Value::from(index.offset));
        entry.insert("length".to_string(), serde_json::Value::from(index.length));
        map.insert(String::from_utf8_lossy(key).into_owned(), serde_json::Value::Object(entry));
    }
    serde_json::to_vec(&serde_json::Value::Object(map)).unwrap_or_default()
}

/// A tree's data: its file, the committed index that readers see, the
/// working index of the transaction that holds the tree, and a cache of
/// values by file position.
pub struct State {
    pub file: Vec<u8>,
    pub reader: VersionedState,
    pub writer: VersionedState,
    pub cache: LruMap<Vec<u8>, CACHE_CAPACITY>,
}

impl State {
    pub open spec fn wf(&self) -> bool {
        &&& self.reader.wf()
        &&& self.writer.wf()
        &&& self.cache.wf()
        &&& !self.reader.dirty
        &&& !self.writer.dirty ==> self.writer.entries() == self.reader.entries()
        &&& forall|i: int|
            0 <= i < self.reader.entries().len() ==> readable(
                self.file@,
                #[trigger] self.reader.entries()[i].1,
            )
        &&& forall|i: int|
            0 <= i < self.writer.entries().len() ==> readable(
                self.file@,
                #[trigger] self.writer.entries()[i].1,
            )
        &&& forall|i: int|
            0 <= i < self.cache@.len() ==> read_paged(
                self.file@,
                #[trigger] self.cache@[i].0 as int,
                self.cache@[i].1@.len(),
                TAG_PAYLOAD,
            ) == Some(self.cache@[i].1@)
    }

    /// What committed transactions left in the tree.
    pub open spec fn committed(&self) -> Map<Seq<u8>, Seq<u8>> {
        contents(self.file@, self.reader.map())
    }

    /// What the transaction that holds the tree sees.
    pub open spec fn working(&self) -> Map<Seq<u8>, Seq<u8>> {
        contents(self.file@, self.writer.map())
    }
}

/// The map that inserting the pairs of `s` in turn builds.
pub open spec fn entries_map(s: Seq<(Vec<u8>, Index)>) -> Map<Seq<u8>, Index>
    decreases s.len(),
{
    if s.len() == 0 {
        Map::empty()
    } else {
        entries_map(s.drop_last()).insert(s.last().0@, s.last().1)
    }
}

impl StateBuilder {
    /// A tree's state from its file and the index entries recovered from
    /// it; fails where an entry points at no value in the file.
    pub fn build(self, entries: Vec<(Vec<u8>, Index)>) -> (r: Result<State, Error>)
        ensures
            match r {
                Ok(st) => st.wf() && trimmed_from(st.file@, self.file@, 5) && st.reader.map()
                    == entries_map(entries@) && st.writer.map() == entries_map(entries@)
                    && st.cache@.len() == 0,
                Err(_) => exists|g: Seq<u8>, i: int|
                    #[trigger] trimmed_from(g, self.file@, 5) && 0 <= i < entries@.len() && !readable(
                        g,
                        #[trigger] entries@[i].1,
                    ),
            },
    {
        let ghost f0 = self.file@;
        let mut file = self.file;
        drop_torn_records(&mut file, 5);
        let mut writer = VersionedState::new();
        let mut i: usize = 0;
        while i < entries.len()
            invariant
                i <= entries@.len(),
                writer.wf(),
                !writer.dirty,
                writer.map() == entries_map(entries@.subrange(0, i as int)),
                trimmed_from(file@, f0, 5),
                f0 == self.file@,
                forall|j: int|
                    0 <= j < writer.entries().len() ==> readable(
                        file@,
                        #[trigger] writer.entries()[j].1,
                    ),
            decreases entries@.len() - i,
        {
            let idx = entries[i].1;
            let probe = DataRetriever { offset: idx.offset, length: idx.length };
            if probe.retrieve(&file).is_none() {
                assert(trimmed_from(file@, self.file@, 5) && !readable(file@, entries@[i as int].1));
                return Err(Error::Corrupt);
            }
            let ghost before = writer.entries();
            let ghost m0 = writer.map();
            proof {
                lemma_key_map(before);
            }
            writer.insert(entries[i].0.clone(), idx);
            proof {
                lemma_key_map(writer.entries());
                assert(entries@.subrange(0, i + 1).drop_last() =~= entries@.subrange(0, i as int));
                assert forall|j: int| 0 <= j < writer.entries().len() implies readable(
                    file@,
                    #[trigger] writer.entries()[j].1,
                ) by {
                    let q = writer.entries()[j].0;
                    assert(writer.map()[q] == writer.entries()[j].1);
                    if q != entries@[i as int].0@ {
                        assert(m0.contains_key(q));
                        let p = choose|p: int| 0 <= p < before.len() && before[p].0 == q;
                        assert(m0[q] == before[p].1);
                    }
                }
            }
            i += 1;
        }
        assert(entries@.subrange(0, i as int) =~= entries@);
        let reader = writer.duplicate();
        Ok(State { file, reader, writer, cache: LruMap::new() })
    }
}

spec fn concat3(a: Seq<Index>, b: Seq<Index>, c: Seq<Index>) -> Seq<Index> {
    a + (b + c)
}

} // verus!
