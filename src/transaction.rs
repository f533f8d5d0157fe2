//! The transaction log's records and the sequencer that decides when commit
//! records become durable.
use vstd::prelude::*;
use crate::error::Error;
use crate::paging::{
    drop_torn_records, find_last_complete_record, last_complete_record, lemma_complete_at,
    lemma_complete_below, no_torn_record, record_body, trimmed_from,
    append_paged, be_bytes, be_decode, be_encode, be_value, encode_paged,
    last_record_page, lemma_be_round_trip, lemma_encoded_tags, lemma_last_record_at,
    lemma_read_encoded, pad_to_page, page_count, page_tag, pow256, read_paged, read_paged_exec,
    round_up, PAGE_LEN, TAG_CONTINUATION, TAG_RECORD,
};
use crate::state::padded;
use crate::utils::{Windows, BYTE_SIZE, WINDOW_BYTES};

verus! {

/// What a commit record holds: the transaction's id and an optional payload.
#[derive(Debug)]
pub struct TransactionData {
    pub transaction_id: usize,
    pub data: Option<Vec<u8>>,
}

impl TransactionData {
    pub open spec fn body(&self) -> Seq<u8> {
        match self.data {
            Some(d) => d@,
            None => seq![],
        }
    }
}

/// `f` after a commit record for `id` with body `b` is appended: a record page
/// holding the body's length in four bytes and the id in eight, then the body.
pub open spec fn with_commit(f: Seq<u8>, id: nat, b: Seq<u8>) -> Seq<u8> {
    let s = round_up(f.len() as int);
    padded(f) + seq![TAG_RECORD] + be_bytes(b.len(), 4) + be_bytes(id, 8) + encode_paged(
        b,
        s + 13,
        TAG_CONTINUATION,
    )
}

/// The id of the last commit record that `f` holds whole, `0` where it
/// holds none. A record cut short by a crash is passed over.
pub open spec fn last_commit_of(f: Seq<u8>) -> nat {
    match last_complete_record(f, page_count(f), 13) {
        None => 0,
        Some(p) => be_value(f.subrange(p * PAGE_LEN + 5, p * PAGE_LEN + 13)),
    }
}

/// Appends one commit record to the transaction log.
pub struct TransactionWriter {
    pub transaction_id: usize,
    pub data: Option<Vec<u8>>,
}

impl TransactionWriter {
    pub fn write(&self, file: &mut Vec<u8>)
        requires
            match self.data {
                Some(d) => d@.len() <= u32::MAX,
                None => true,
            },
        ensures
            final(file)@ == with_commit(
                old(file)@,
                self.transaction_id as nat,
                match self.data {
                    Some(d) => d@,
                    None => seq![],
                },
            ),
    {
        let ghost f0 = old(file)@;
        let empty: Vec<u8> = Vec::new();
        let body = match &self.data {
            Some(d) => d,
            None => &empty,
        };
        pad_to_page(file);
        assert(file@ =~= padded(f0));
        file.push(TAG_RECORD);
        let mut len = be_encode(body.len() as u64, 4);
        file.append(&mut len);
        let mut id = be_encode(self.transaction_id as u64, 8);
        file.append(&mut id);
        proof {
            reveal_with_fuel(pow256, 5);
            lemma_be_round_trip(body@.len(), 4);
            assert(be_bytes(self.transaction_id as nat, 8).len() == 8) by {
                reveal_with_fuel(pow256, 9);
                lemma_be_round_trip(self.transaction_id as nat, 8);
            }
        }
        assert(file@ =~= padded(f0) + seq![TAG_RECORD] + be_bytes(body@.len(), 4) + be_bytes(
            self.transaction_id as nat,
            8,
        ));
        append_paged(file, body, TAG_CONTINUATION);
    }
}

/// Recovering a log right after a commit record was appended gives that
/// record's id.
pub proof fn lemma_commit_round_trip(f: Seq<u8>, id: nat, b: Seq<u8>)
    requires
        b.len() <= u32::MAX,
        id <= u64::MAX,
    ensures
        last_commit_of(with_commit(f, id, b)) == id,
        no_torn_record(with_commit(f, id, b), 13),
{
    let s = round_up(f.len() as int);
    let p = ((f.len() + PAGE_LEN - 1) / (PAGE_LEN as int)) as nat;
    assert(s == p * PAGE_LEN);
    reveal_with_fuel(pow256, 9);
    lemma_be_round_trip(b.len(), 4);
    lemma_be_round_trip(id, 8);
    let head = padded(f) + seq![TAG_RECORD] + be_bytes(b.len(), 4) + be_bytes(id, 8);
    let enc = encode_paged(b, s + 13, TAG_CONTINUATION);
    let g = with_commit(f, id, b);
    assert(g =~= head + enc + seq![]);
    assert(head.len() == s + 13);
    assert(g[s] == TAG_RECORD);
    assert(page_count(g) > p);
    assert forall|q: nat| p < q < page_count(g) && q * PAGE_LEN < g.len() implies #[trigger] page_tag(
        g,
        q,
    ) != TAG_RECORD by {
        assert(q * PAGE_LEN >= s + PAGE_LEN) by (nonlinear_arith)
            requires
                p < q,
                s == p * PAGE_LEN,
                PAGE_LEN == 1024,
        ;
        lemma_encoded_tags(b, s + 13, TAG_CONTINUATION, q * PAGE_LEN);
    }
    lemma_last_record_at(g, page_count(g), p);
    assert(g.subrange(s + 1, s + 5) =~= be_bytes(b.len(), 4));
    assert(g.subrange(s + 5, s + 13) =~= be_bytes(id, 8));
    lemma_read_encoded(head, b, seq![], TAG_CONTINUATION);
    assert(record_body(g, p, 13) == Some(b));
    lemma_complete_at(g, page_count(g), p, 13);
}

/// The log after a commit record for each of `records` is appended in turn.
pub open spec fn with_commits(f: Seq<u8>, records: Seq<TransactionData>) -> Seq<u8>
    decreases records.len(),
{
    if records.len() == 0 {
        f
    } else {
        with_commit(
            with_commits(f, records.drop_last()),
            records.last().transaction_id as nat,
            records.last().body(),
        )
    }
}

/// Once the records a sequencer hands out are appended to the log in the
/// order given, recovery finds the last of them: the durable ids end there.
pub proof fn lemma_log_recovers_last(f: Seq<u8>, records: Seq<TransactionData>)
    requires
        records.len() > 0,
        records.last().body().len() <= u32::MAX,
    ensures
        last_commit_of(with_commits(f, records)) == records.last().transaction_id as nat,
{
    lemma_commit_round_trip(
        with_commits(f, records.drop_last()),
        records.last().transaction_id as nat,
        records.last().body(),
    );
}

/// Recovers the sequencer's starting point from the transaction log.
pub struct TransactionBatchBuilder {
    pub file: Vec<u8>,
}

impl TransactionBatchBuilder {
    /// The id of the last durable commit: that of the last whole record,
    /// `0` for a log without one. Fails only where that id does not fit in
    /// `usize`.
    pub fn recover(&self) -> (r: Result<usize, Error>)
        ensures
            match r {
                Ok(id) => last_commit_of(self.file@) == id as nat,
                Err(_) => last_commit_of(self.file@) > usize::MAX,
            },
    {
        match find_last_complete_record(&self.file, 13) {
            None => Ok(0),
            Some((s, _)) => {
                let ghost p = (s / PAGE_LEN) as nat;
                assert(p * PAGE_LEN == s);
                let id = be_decode(&self.file, s + 5, 8);
                if id > usize::MAX as u64 {
                    return Err(Error::Corrupt);
                }
                Ok(id as usize)
            },
        }
    }

    /// Cuts off a record that a crash left unfinished at the end of the log,
    /// and returns the sequencer that continues after the last durable
    /// commit.
    pub fn build(&mut self) -> (r: Result<Sequencer, Error>)
        ensures
            trimmed_from(final(self).file@, old(self).file@, 13),
            last_commit_of(final(self).file@) == last_commit_of(old(self).file@),
            match r {
                Ok(q) => q.wf() && q.windows.head == last_commit_of(old(self).file@) + 1
                    && q.pending@.len() == 0,
                Err(_) => last_commit_of(old(self).file@) + 1 + BYTE_SIZE * WINDOW_BYTES
                    > usize::MAX,
            },
    {
        let ghost f0 = self.file@;
        drop_torn_records(&mut self.file, 13);
        proof {
            let g = self.file@;
            match last_complete_record(f0, page_count(f0), 13) {
                None => {},
                Some(p) => {
                    lemma_complete_below(g, page_count(g), 13);
                    let s = p * PAGE_LEN;
                    assert(record_body(g, p, 13) is Some);
                    assert(g.subrange(s + 5, s + 13) =~= f0.subrange(s + 5, s + 13));
                },
            }
        }
        let id = self.recover()?;
        if id > usize::MAX - 1 - BYTE_SIZE * WINDOW_BYTES {
            return Err(Error::Corrupt);
        }
        Ok(Sequencer::new(id + 1))
    }
}

/// What a transaction asks of the sequencer when it ends.
pub enum TransactionAction {
    /// Make its commit record durable.
    Commit(TransactionData),
    /// It aborted: its id is resolved without a record.
    Drop(usize),
}

impl TransactionAction {
    pub open spec fn id(&self) -> usize {
        match self {
            TransactionAction::Commit(d) => d.transaction_id,
            TransactionAction::Drop(id) => *id,
        }
    }
}

pub open spec fn increasing(s: Seq<TransactionData>) -> bool {
    forall|i: int, j: int|
        0 <= i < j < s.len() ==> s[i].transaction_id < s[j].transaction_id
}

/// Decides, action by action, which commit records may be written: only when
/// every id up to them is resolved, and then in increasing id order.
pub struct Sequencer {
    pub windows: Windows,
    /// Commits that wait for earlier ids to resolve, by increasing id.
    pub pending: Vec<TransactionData>,
    /// Every id below this is resolved, and every commit below it has been
    /// handed out for writing.
    pub durable: Ghost<int>,
}

impl Sequencer {
    pub open spec fn wf(&self) -> bool {
        &&& self.windows.wf()
        &&& forall|x: int| x < self.durable@ ==> #[trigger] self.windows.resolved(x)
        &&& increasing(self.pending@)
        &&& forall|i: int|
            0 <= i < self.pending@.len() ==> #[trigger] self.pending@[i].transaction_id
                >= self.durable@ && self.windows.resolved(
                self.pending@[i].transaction_id as int,
            )
    }

    /// Whether resolving `id` makes the resolved ids at or above the window's
    /// head one contiguous run from there.
    pub open spec fn seals_with(&self, id: int) -> bool {
        exists|m: int| m > 0 && #[trigger] self.sealed_by(id, m)
    }

    /// Once `id` is resolved, the resolved ids at or above the window's head
    /// are exactly `head .. head + m`.
    pub open spec fn sealed_by(&self, id: int, m: int) -> bool {
        forall|x: int|
            x >= self.windows.head ==> ((#[trigger] self.windows.resolved(x) || x == id) <==> x
                < self.windows.head + m)
    }

    /// A sequencer for which every id below `head` is resolved.
    pub fn new(head: usize) -> (r: Self)
        requires
            head + BYTE_SIZE * WINDOW_BYTES <= usize::MAX,
        ensures
            r.wf(),
            r.windows.head == head,
            r.durable@ == head,
            r.pending@.len() == 0,
            forall|x: int| #[trigger] r.windows.resolved(x) <==> x < head,
    {
        Sequencer { windows: Windows::start_with(head), pending: Vec::new(), durable: Ghost(head as int) }
    }

    /// Resolves the action's id. Returns the commit records to write now, in
    /// increasing id order: all waiting commits, this one included, once the
    /// resolved ids form one contiguous run; none otherwise.
    #[verifier::rlimit(50)]
    pub fn handle(&mut self, action: TransactionAction) -> (r: Vec<TransactionData>)
        requires
            old(self).wf(),
            !old(self).windows.resolved(action.id() as int),
            action.id() + BYTE_SIZE <= usize::MAX,
        ensures
            final(self).wf(),
            forall|x: int| #[trigger] final(self).windows.resolved(x) <==> (old(self).windows.resolved(x)
                || x == action.id()),
            increasing(r@),
            forall|t: TransactionData| (r@.contains(t) || final(self).pending@.contains(t)) <==> (
            old(self).pending@.contains(t) || action == TransactionAction::Commit(t)),
            forall|i: int|
                0 <= i < r@.len() ==> old(self).durable@ <= #[trigger] r@[i].transaction_id
                    < final(self).durable@,
            final(self).durable@ >= old(self).durable@,
            old(self).seals_with(action.id() as int) ==> final(self).pending@.len() == 0,
            !old(self).seals_with(action.id() as int) ==> r@.len() == 0,
    {
        let ghost s = *old(self);
        let id = match &action {
            TransactionAction::Commit(d) => d.transaction_id,
            TransactionAction::Drop(id) => *id,
        };
        self.windows.put(id);
        let ghost w1 = self.windows;
        match action {
            TransactionAction::Commit(data) => {
                let mut pos: usize = 0;
                while pos < self.pending.len() && self.pending[pos].transaction_id < id
                    invariant
                        pos <= self.pending@.len(),
                        self.pending@ == s.pending@,
                        forall|i: int| 0 <= i < pos ==> #[trigger] self.pending@[i].transaction_id
                            < id,
                    decreases self.pending@.len() - pos,
                {
                    pos += 1;
                }
                assert(pos < s.pending@.len() ==> s.pending@[pos as int].transaction_id != id);
                let ghost d = data;
                self.pending.insert(pos, data);
                assert(self.pending@ =~= s.pending@.insert(pos as int, d));
                assert forall|t: TransactionData| self.pending@.contains(t) <==> (s.pending@.contains(t)
                    || t == d) by {
                    if s.pending@.contains(t) {
                        let i = choose|i: int| 0 <= i < s.pending@.len() && s.pending@[i] == t;
                        if i < pos {
                            assert(self.pending@[i] == t);
                        } else {
                            assert(self.pending@[i + 1] == t);
                        }
                    }
                    if t == d {
                        assert(self.pending@[pos as int] == t);
                    }
                }
            },
            TransactionAction::Drop(_) => {},
        }
        let ghost pending1 = self.pending@;
        assert(forall|t: TransactionData| #[trigger] pending1.contains(t) <==> (s.pending@.contains(t)
            || action == TransactionAction::Commit(t)));
        assert(forall|x: int| #[trigger] w1.resolved(x) <==> (s.windows.resolved(x) || x == id));
        if self.windows.completed() {
            let mut out: Vec<TransactionData> = Vec::new();
            std::mem::swap(&mut out, &mut self.pending);
            proof {
                let m = choose|m: int| m > 0 && #[trigger] w1.prefix_resolved(m);
                let sealed = w1.head + m;
                assert(s.seals_with(id as int)) by {
                    assert forall|x: int| x >= s.windows.head implies ((#[trigger] s.windows.resolved(x) || x
                        == id) <==> x < s.windows.head + m) by {
                        assert(w1.resolved(x) <==> x < w1.head + m);
                    }
                    assert(s.sealed_by(id as int, m));
                }
                if s.durable@ > sealed {
                    assert(s.windows.resolved(sealed));
                    assert(w1.resolved(sealed));
                }
                assert forall|i: int| 0 <= i < out@.len() implies s.durable@ <= #[trigger] out@[i].transaction_id
                    < sealed by {
                    assert(w1.resolved(out@[i].transaction_id as int));
                }
                assert forall|x: int| x < sealed implies #[trigger] self.windows.resolved(x) by {
                    assert(w1.resolved(x));
                }
                self.durable = Ghost(sealed);
            }
            out
        } else {
            proof {
                assert(!s.seals_with(id as int)) by {
                    if s.seals_with(id as int) {
                        let m = choose|m: int| m > 0 && #[trigger] s.sealed_by(id as int, m);
                        assert forall|x: int| x >= w1.head implies (#[trigger] w1.resolved(x) <==> x
                            < w1.head + m) by {
                            assert(s.windows.resolved(x) || x == id <==> x < s.windows.head + m);
                        }
                        assert(w1.prefix_resolved(m));
                    }
                }
            }
            Vec::new()
        }
    }
}

} // verus!
