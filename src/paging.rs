//! The page framing shared by tree files and the transaction log.
//!
//! A file is a sequence of `PAGE_LEN`-byte pages, each starting with a
//! one-byte tag. Content written from a position onward fills the rest of the
//! current page and continues on following pages after their tag byte.
use vstd::prelude::*;

verus! {

pub const PAGE_LEN: usize = 1024;

/// Tag of a continuation page of a snapshot or commit record.
pub const TAG_CONTINUATION: u8 = 0;

/// Tag of the first page of a snapshot or commit record.
pub const TAG_RECORD: u8 = 1;

/// Tag of every page that holds values.
pub const TAG_PAYLOAD: u8 = 2;

/// The bytes that hold `d` when it is written from position `pos` on, with
/// `tag` at the start of every page it reaches.
pub open spec fn encode_paged(d: Seq<u8>, pos: int, tag: u8) -> Seq<u8>
    decreases d.len(),
{
    if d.len() == 0 {
        seq![]
    } else if pos % (PAGE_LEN as int) == 0 {
        seq![tag, d[0]] + encode_paged(d.skip(1), pos + 2, tag)
    } else {
        seq![d[0]] + encode_paged(d.skip(1), pos + 1, tag)
    }
}

pub open spec fn prepend(a: Seq<u8>, r: Option<Seq<u8>>) -> Option<Seq<u8>> {
    match r {
        Some(x) => Some(a + x),
        None => None,
    }
}

/// The `len` content bytes of `f` from position `pos` on, skipping the tag at
/// the start of each page; `None` where a tag differs from `tag` or the file
/// ends first.
pub open spec fn read_paged(f: Seq<u8>, pos: int, len: nat, tag: u8) -> Option<Seq<u8>>
    decreases len,
{
    if len == 0 {
        Some(seq![])
    } else if pos < 0 {
        None
    } else if pos % (PAGE_LEN as int) == 0 {
        if pos + 1 < f.len() && f[pos] == tag {
            prepend(seq![f[pos + 1]], read_paged(f, pos + 2, (len - 1) as nat, tag))
        } else {
            None
        }
    } else if pos < f.len() {
        prepend(seq![f[pos]], read_paged(f, pos + 1, (len - 1) as nat, tag))
    } else {
        None
    }
}

/// Reading back what `encode_paged` wrote gives the content, whatever
/// precedes and follows it.
pub proof fn lemma_read_encoded(g: Seq<u8>, d: Seq<u8>, rest: Seq<u8>, tag: u8)
    ensures
        read_paged(g + encode_paged(d, g.len() as int, tag) + rest, g.len() as int, d.len(), tag)
            == Some(d),
    decreases d.len(),
{
    if d.len() > 0 {
        let pos = g.len() as int;
        let f = g + encode_paged(d, pos, tag) + rest;
        if pos % (PAGE_LEN as int) == 0 {
            let g2 = g + seq![tag, d[0]];
            assert(f =~= g2 + encode_paged(d.skip(1), pos + 2, tag) + rest);
            lemma_read_encoded(g2, d.skip(1), rest, tag);
        } else {
            let g2 = g + seq![d[0]];
            assert(f =~= g2 + encode_paged(d.skip(1), pos + 1, tag) + rest);
            lemma_read_encoded(g2, d.skip(1), rest, tag);
        }
        assert(seq![d[0]] + d.skip(1) =~= d);
    }
}

/// What can be read from a file can still be read after more is appended.
pub proof fn lemma_read_extended(f: Seq<u8>, g: Seq<u8>, pos: int, len: nat, tag: u8)
    requires
        read_paged(f, pos, len, tag) is Some,
    ensures
        read_paged(f + g, pos, len, tag) == read_paged(f, pos, len, tag),
    decreases len,
{
    if len > 0 {
        if pos % (PAGE_LEN as int) == 0 {
            lemma_read_extended(f, g, pos + 2, (len - 1) as nat, tag);
        } else {
            lemma_read_extended(f, g, pos + 1, (len - 1) as nat, tag);
        }
    }
}

/// A read gives as many bytes as asked for.
pub proof fn lemma_read_len(f: Seq<u8>, pos: int, len: nat, tag: u8)
    requires
        read_paged(f, pos, len, tag) is Some,
    ensures
        read_paged(f, pos, len, tag).unwrap().len() == len,
    decreases len,
{
    if len > 0 {
        if pos % (PAGE_LEN as int) == 0 {
            lemma_read_len(f, pos + 2, (len - 1) as nat, tag);
        } else {
            lemma_read_len(f, pos + 1, (len - 1) as nat, tag);
        }
    }
}

/// A read ends within the file.
pub proof fn lemma_read_bound(f: Seq<u8>, pos: int, len: nat, tag: u8)
    requires
        read_paged(f, pos, len, tag) is Some,
        len > 0,
    ensures
        0 <= pos,
        pos + len <= f.len(),
    decreases len,
{
    if len > 1 {
        if pos % (PAGE_LEN as int) == 0 {
            lemma_read_bound(f, pos + 2, (len - 1) as nat, tag);
        } else {
            lemma_read_bound(f, pos + 1, (len - 1) as nat, tag);
        }
    }
}

/// Every page that starts inside bytes written by `encode_paged` starts with its tag.
pub proof fn lemma_encoded_tags(d: Seq<u8>, pos: int, tag: u8, k: int)
    requires
        pos >= 0,
        pos <= k < pos + encode_paged(d, pos, tag).len(),
        k % (PAGE_LEN as int) == 0,
    ensures
        encode_paged(d, pos, tag)[k - pos] == tag,
    decreases d.len(),
{
    if d.len() > 0 {
        if pos % (PAGE_LEN as int) == 0 {
            if k > pos {
                assert(k != pos + 1);
                lemma_encoded_tags(d.skip(1), pos + 2, tag, k);
            }
        } else {
            lemma_encoded_tags(d.skip(1), pos + 1, tag, k);
        }
    }
}

/// Appends `d` to `f` from its current end, with `tag` at each page start.
pub fn append_paged(f: &mut Vec<u8>, d: &Vec<u8>, tag: u8)
    ensures
        final(f)@ == old(f)@ + encode_paged(d@, old(f)@.len() as int, tag),
{
    let ghost f0 = f@;
    let mut i: usize = 0;
    assert(d@.skip(0) =~= d@);
    assert(f0 + seq![] =~= f0);
    while i < d.len()
        invariant
            i <= d.len(),
            f@ + encode_paged(d@.skip(i as int), f@.len() as int, tag) == f0 + encode_paged(
                d@,
                f0.len() as int,
                tag,
            ),
        decreases d.len() - i,
    {
        let ghost pre = f@;
        let ghost rest = d@.skip(i as int);
        assert(rest.skip(1) =~= d@.skip(i + 1));
        if f.len() % PAGE_LEN == 0 {
            f.push(tag);
            f.push(d[i]);
            assert(pre + encode_paged(rest, pre.len() as int, tag) =~= f@ + encode_paged(
                d@.skip(i + 1),
                f@.len() as int,
                tag,
            ));
        } else {
            f.push(d[i]);
            assert(pre + encode_paged(rest, pre.len() as int, tag) =~= f@ + encode_paged(
                d@.skip(i + 1),
                f@.len() as int,
                tag,
            ));
        }
        i += 1;
    }
    assert(d@.skip(i as int).len() == 0);
    assert(f@ + seq![] =~= f@);
}

/// Reads `len` content bytes of `f` from `pos` on.
pub fn read_paged_exec(f: &Vec<u8>, pos: usize, len: usize, tag: u8) -> (r: Option<Vec<u8>>)
    ensures
        match r {
            Some(v) => read_paged(f@, pos as int, len as nat, tag) == Some(v@),
            None => read_paged(f@, pos as int, len as nat, tag) is None,
        },
{
    let mut out: Vec<u8> = Vec::new();
    let mut p = pos;
    let mut rem = len;
    assert(out@ + seq![] =~= out@);
    while rem > 0
        invariant
            read_paged(f@, pos as int, len as nat, tag) == prepend(
                out@,
                read_paged(f@, p as int, rem as nat, tag),
            ),
        decreases rem,
    {
        let ghost pre = out@;
        if p % PAGE_LEN == 0 {
            if p < f.len() && f.len() - p > 1 && f[p] == tag {
                out.push(f[p + 1]);
                p = p + 2;
            } else {
                return None;
            }
        } else if p < f.len() {
            out.push(f[p]);
            p = p + 1;
        } else {
            return None;
        }
        rem = rem - 1;
        proof {
            match read_paged(f@, p as int, rem as nat, tag) {
                Some(x) => {
                    assert(pre + (seq![out@.last()] + x) =~= out@ + x);
                },
                None => {},
            }
        }
    }
    assert(out@ + seq![] =~= out@);
    Some(out)
}

/// Position of the first page boundary at or after `n`.
pub open spec fn round_up(n: int) -> int {
    (n + PAGE_LEN - 1) / (PAGE_LEN as int) * (PAGE_LEN as int)
}

/// Number of pages that the bytes of `f` reach into.
pub open spec fn page_count(f: Seq<u8>) -> nat {
    ((f.len() + PAGE_LEN - 1) / (PAGE_LEN as int)) as nat
}

/// Extends `f` with zero bytes up to the next page boundary.
pub fn pad_to_page(f: &mut Vec<u8>)
    ensures
        final(f)@.len() == round_up(old(f)@.len() as int),
        final(f)@ == old(f)@ + Seq::new((final(f)@.len() - old(f)@.len()) as nat, |i: int| 0u8),
{
    let ghost f0 = f@;
    while f.len() % PAGE_LEN != 0
        invariant
            f0.len() <= f@.len() <= round_up(f0.len() as int),
            round_up(f@.len() as int) == round_up(f0.len() as int),
            f@ == f0 + Seq::new((f@.len() - f0.len()) as nat, |i: int| 0u8),
        decreases round_up(f0.len() as int) - f@.len(),
    {
        f.push(0);
        assert(f@ =~= f0 + Seq::new((f@.len() - f0.len()) as nat, |i: int| 0u8));
    }
}

/// The index of the last page that starts with a record tag among the first `k`.
pub open spec fn last_record_page(f: Seq<u8>, k: nat) -> Option<nat>
    decreases k,
{
    if k == 0 {
        None
    } else if (k - 1) * PAGE_LEN < f.len() && f[(k - 1) * PAGE_LEN] == TAG_RECORD {
        Some((k - 1) as nat)
    } else {
        last_record_page(f, (k - 1) as nat)
    }
}

/// The tag byte of page `q`.
pub open spec fn page_tag(f: Seq<u8>, q: nat) -> u8 {
    f[q * PAGE_LEN]
}

/// The last record page is `p` when no later page among the first `k` starts
/// with a record tag.
pub proof fn lemma_last_record_at(f: Seq<u8>, k: nat, p: nat)
    requires
        p < k,
        p * PAGE_LEN < f.len(),
        f[p * PAGE_LEN] == TAG_RECORD,
        forall|q: nat| p < q < k && q * PAGE_LEN < f.len() ==> #[trigger] page_tag(f, q) != TAG_RECORD,
    ensures
        last_record_page(f, k) == Some(p),
    decreases k,
{
    if k - 1 > p {
        assert((k - 1) * PAGE_LEN < f.len() ==> page_tag(f, (k - 1) as nat) != TAG_RECORD);
        lemma_last_record_at(f, (k - 1) as nat, p);
    }
}

/// Pages from `k1` to `k2` that do not start with a record tag do not change
/// the last record page.
pub proof fn lemma_last_record_skip(f: Seq<u8>, k1: nat, k2: nat)
    requires
        k1 <= k2,
        forall|q: nat| k1 <= q < k2 && q * PAGE_LEN < f.len() ==> #[trigger] page_tag(f, q) != TAG_RECORD,
    ensures
        last_record_page(f, k2) == last_record_page(f, k1),
    decreases k2,
{
    if k2 > k1 {
        assert((k2 - 1) * PAGE_LEN < f.len() ==> page_tag(f, (k2 - 1) as nat) != TAG_RECORD);
        lemma_last_record_skip(f, k1, (k2 - 1) as nat);
    }
}

/// What the last record page among the first `k` tells of the pages.
pub proof fn lemma_last_record_facts(f: Seq<u8>, k: nat)
    ensures
        match last_record_page(f, k) {
            Some(p) => p < k && p * PAGE_LEN < f.len() && page_tag(f, p) == TAG_RECORD && forall|q: nat|
                p < q < k && q * PAGE_LEN < f.len() ==> #[trigger] page_tag(f, q) != TAG_RECORD,
            None => forall|q: nat|
                q < k && q * PAGE_LEN < f.len() ==> #[trigger] page_tag(f, q) != TAG_RECORD,
        },
    decreases k,
{
    if k > 0 {
        lemma_last_record_facts(f, (k - 1) as nat);
    }
}

/// The body of the record that starts on page `p` after `hdr` header bytes,
/// its length taken from the four bytes after the tag; `None` where the file
/// ends inside the record or a continuation tag is wrong.
pub open spec fn record_body(f: Seq<u8>, p: nat, hdr: int) -> Option<Seq<u8>> {
    let s = p * PAGE_LEN;
    if s + hdr <= f.len() {
        read_paged(f, s + hdr, be_value(f.subrange(s + 1, s + 5)), TAG_CONTINUATION)
    } else {
        None
    }
}

/// Page `q` starts a record that the file holds whole.
pub open spec fn is_complete_record(f: Seq<u8>, q: nat, hdr: int) -> bool {
    q * PAGE_LEN < f.len() && page_tag(f, q) == TAG_RECORD && record_body(f, q, hdr) is Some
}

/// The last page among the first `k` that starts a whole record.
pub open spec fn last_complete_record(f: Seq<u8>, k: nat, hdr: int) -> Option<nat>
    decreases k,
{
    if k == 0 {
        None
    } else if is_complete_record(f, (k - 1) as nat, hdr) {
        Some((k - 1) as nat)
    } else {
        last_complete_record(f, (k - 1) as nat, hdr)
    }
}

/// The last whole record is on page `p` when no later page among the first
/// `k` starts a record.
pub proof fn lemma_complete_at(f: Seq<u8>, k: nat, p: nat, hdr: int)
    requires
        p < k,
        is_complete_record(f, p, hdr),
        forall|q: nat| p < q < k && q * PAGE_LEN < f.len() ==> #[trigger] page_tag(f, q) != TAG_RECORD,
    ensures
        last_complete_record(f, k, hdr) == Some(p),
    decreases k,
{
    if k - 1 > p {
        assert((k - 1) * PAGE_LEN < f.len() ==> page_tag(f, (k - 1) as nat) != TAG_RECORD);
        lemma_complete_at(f, (k - 1) as nat, p, hdr);
    }
}

/// Pages from `k1` to `k2` that hold no whole record do not change the last
/// whole record.
pub proof fn lemma_complete_skip(f: Seq<u8>, k1: nat, k2: nat, hdr: int)
    requires
        k1 <= k2,
        forall|q: nat| k1 <= q < k2 ==> !#[trigger] is_complete_record(f, q, hdr),
    ensures
        last_complete_record(f, k2, hdr) == last_complete_record(f, k1, hdr),
    decreases k2,
{
    if k2 > k1 {
        assert(!is_complete_record(f, (k2 - 1) as nat, hdr));
        lemma_complete_skip(f, k1, (k2 - 1) as nat, hdr);
    }
}

pub proof fn lemma_complete_below(f: Seq<u8>, k: nat, hdr: int)
    ensures
        match last_complete_record(f, k, hdr) {
            Some(q) => q < k && is_complete_record(f, q, hdr),
            None => true,
        },
    decreases k,
{
    if k > 0 {
        lemma_complete_below(f, (k - 1) as nat, hdr);
    }
}

/// Cutting a file at a page boundary whose tag differs from `tag` does not
/// change a read from before the cut.
pub proof fn lemma_read_cut(f: Seq<u8>, n: int, pos: int, len: nat, tag: u8)
    requires
        0 <= pos <= n < f.len(),
        n % (PAGE_LEN as int) == 0,
        f[n] != tag,
    ensures
        read_paged(f.take(n), pos, len, tag) == read_paged(f, pos, len, tag),
    decreases len,
{
    if len > 0 && pos < n {
        if pos % (PAGE_LEN as int) == 0 {
            assert(pos + 2 <= n);
            lemma_read_cut(f, n, pos + 2, (len - 1) as nat, tag);
        } else {
            lemma_read_cut(f, n, pos + 1, (len - 1) as nat, tag);
        }
    }
}

/// Cutting a file at the start of a record page keeps every whole record
/// before it.
proof fn lemma_complete_cut(f: Seq<u8>, p: nat, k: nat, hdr: int)
    requires
        p * PAGE_LEN < f.len(),
        page_tag(f, p) == TAG_RECORD,
        k <= p,
        5 <= hdr <= 13,
    ensures
        last_complete_record(f.take(p * PAGE_LEN), k, hdr) == last_complete_record(f, k, hdr),
        forall|q: nat|
            q < p ==> #[trigger] record_body(f.take(p * PAGE_LEN), q, hdr) == record_body(f, q, hdr),
    decreases k,
{
    let n = p * PAGE_LEN;
    let g = f.take(n as int);
    assert forall|q: nat| q < p implies #[trigger] record_body(g, q, hdr) == record_body(f, q, hdr) by {
        let s = q * PAGE_LEN;
        assert(s + PAGE_LEN <= n) by (nonlinear_arith)
            requires
                q < p,
                s == q * 1024,
                n == p * 1024,
        ;
        if s + hdr <= f.len() {
            assert(g.subrange(s + 1, s + 5) =~= f.subrange(s + 1, s + 5));
            lemma_read_cut(
                f,
                n as int,
                s + hdr,
                be_value(f.subrange(s + 1, s + 5)),
                TAG_CONTINUATION,
            );
        }
    }
    if k > 0 {
        lemma_complete_cut(f, p, (k - 1) as nat, hdr);
        let q = (k - 1) as nat;
        assert(q * PAGE_LEN < n) by (nonlinear_arith)
            requires
                q < p,
                n == p * 1024,
        ;
        assert(is_complete_record(g, q, hdr) == is_complete_record(f, q, hdr));
    }
}

/// The file has no record page after its last whole record.
pub open spec fn no_torn_record(f: Seq<u8>, hdr: int) -> bool {
    last_record_page(f, page_count(f)) == last_complete_record(f, page_count(f), hdr)
}

/// `g` is a prefix of `f` that keeps `f`'s last whole record, cut, if at
/// all, at the start of a record page.
pub open spec fn cut_keeping_records(g: Seq<u8>, f: Seq<u8>, hdr: int) -> bool {
    &&& g.is_prefix_of(f)
    &&& last_complete_record(g, page_count(g), hdr) == last_complete_record(f, page_count(f), hdr)
    &&& forall|p: nat|
        last_complete_record(f, page_count(f), hdr) == Some(p) ==> #[trigger] record_body(g, p, hdr)
            == record_body(f, p, hdr)
    &&& g.len() < f.len() ==> g.len() % (PAGE_LEN as nat) == 0 && f[g.len() as int] == TAG_RECORD
}

/// `g` is `f` with the record pages that follow its last whole record cut
/// off, together with everything after them.
pub open spec fn trimmed_from(g: Seq<u8>, f: Seq<u8>, hdr: int) -> bool {
    cut_keeping_records(g, f, hdr) && no_torn_record(g, hdr)
}

proof fn lemma_trim_none(g: Seq<u8>, f0: Seq<u8>, hdr: int)
    requires
        cut_keeping_records(g, f0, hdr),
        last_record_page(g, page_count(g)) is None,
    ensures
        trimmed_from(g, f0, hdr),
{
    lemma_last_record_facts(g, page_count(g));
    assert forall|q: nat| 0 <= q < page_count(g) implies !#[trigger] is_complete_record(g, q, hdr) by {
        if q * PAGE_LEN < g.len() {
            assert(page_tag(g, q) != TAG_RECORD);
        }
    }
    lemma_complete_skip(g, 0, page_count(g), hdr);
}

proof fn lemma_trim_whole(g: Seq<u8>, f0: Seq<u8>, p: nat, hdr: int)
    requires
        cut_keeping_records(g, f0, hdr),
        last_record_page(g, page_count(g)) == Some(p),
        record_body(g, p, hdr) is Some,
    ensures
        trimmed_from(g, f0, hdr),
{
    lemma_last_record_facts(g, page_count(g));
    lemma_complete_at(g, page_count(g), p, hdr);
}

proof fn lemma_trim_step(g: Seq<u8>, f0: Seq<u8>, p: nat, hdr: int)
    requires
        5 <= hdr <= 13,
        cut_keeping_records(g, f0, hdr),
        last_record_page(g, page_count(g)) == Some(p),
        record_body(g, p, hdr) is None,
    ensures
        cut_keeping_records(g.take(p * PAGE_LEN), f0, hdr),
        p * PAGE_LEN < g.len(),
{
    lemma_last_record_facts(g, page_count(g));
    let s = p * PAGE_LEN;
    let h = g.take(s as int);
    assert forall|q: nat| p <= q < page_count(g) implies !#[trigger] is_complete_record(g, q, hdr) by {
        if q > p && q * PAGE_LEN < g.len() {
            assert(page_tag(g, q) != TAG_RECORD);
        }
    }
    lemma_complete_skip(g, p, page_count(g), hdr);
    lemma_complete_cut(g, p, p, hdr);
    lemma_complete_below(g, p, hdr);
    assert(page_count(h) == p);
    assert forall|i: int| 0 <= i < s implies h[i] == f0[i] by {
        assert(g[i] == f0[i]);
    }
    assert(f0[s as int] == g[s as int]);
}

/// Walks back from the end of `f` to the last record that `f` holds whole,
/// and returns where it starts and its body.
pub fn find_last_complete_record(f: &Vec<u8>, hdr: usize) -> (r: Option<(usize, Vec<u8>)>)
    requires
        5 <= hdr <= 13,
    ensures
        match r {
            Some((s, b)) => last_complete_record(f@, page_count(f@), hdr as int) == Some(
                (s / PAGE_LEN) as nat,
            ) && s % PAGE_LEN == 0 && record_body(f@, (s / PAGE_LEN) as nat, hdr as int) == Some(
                b@,
            ),
            None => last_complete_record(f@, page_count(f@), hdr as int) is None,
        },
{
    let n = f.len();
    let mut k: usize = n / PAGE_LEN + if n % PAGE_LEN == 0 { 0 } else { 1 };
    assert(k == page_count(f@));
    while k > 0
        invariant
            k <= page_count(f@),
            n == f@.len(),
            5 <= hdr <= 13,
            last_complete_record(f@, page_count(f@), hdr as int) == last_complete_record(
                f@,
                k as nat,
                hdr as int,
            ),
        decreases k,
    {
        assert((k - 1) * 1024 < f@.len()) by (nonlinear_arith)
            requires
                0 < k <= (f@.len() + 1023) / 1024,
        ;
        let s = (k - 1) * PAGE_LEN;
        assert(s / PAGE_LEN == k - 1);
        if f[s] == TAG_RECORD && n - s >= hdr {
            let total = be_decode(f, s + 1, 4);
            proof {
                reveal_with_fuel(pow256, 5);
            }
            match read_paged_exec(f, s + hdr, total as usize, TAG_CONTINUATION) {
                Some(b) => {
                    return Some((s, b));
                },
                None => {},
            }
        }
        k = k - 1;
    }
    None
}

/// Cuts off the record pages that follow the last whole record of `f`, and
/// everything after them: what a crash in the middle of an append leaves.
pub fn drop_torn_records(f: &mut Vec<u8>, hdr: usize)
    requires
        5 <= hdr <= 13,
    ensures
        trimmed_from(final(f)@, old(f)@, hdr as int),
{
    let ghost f0 = f@;
    assert(f0.take(f0.len() as int) =~= f0);
    loop
        invariant
            5 <= hdr <= 13,
            f0 == old(f)@,
            cut_keeping_records(f@, f0, hdr as int),
        decreases f@.len(),
    {
        let ghost g = f@;
        match find_last_record(f) {
            None => {
                proof {
                    lemma_trim_none(g, f0, hdr as int);
                }
                return;
            },
            Some(s) => {
                let n = f.len();
                let mut complete = false;
                if n - s >= hdr {
                    let total = be_decode(f, s + 1, 4);
                    proof {
                        reveal_with_fuel(pow256, 5);
                    }
                    complete = read_paged_exec(f, s + hdr, total as usize, TAG_CONTINUATION).is_some();
                }
                let ghost p = (s / PAGE_LEN) as nat;
                assert(p * PAGE_LEN == s);
                if complete {
                    proof {
                        lemma_trim_whole(g, f0, p, hdr as int);
                    }
                    return;
                }
                proof {
                    lemma_trim_step(g, f0, p, hdr as int);
                }
                f.truncate(s);
                assert(f@ =~= g.take(s as int));
            },
        }
    }
}

/// Walks back from the end of `f` to the start of its last record.
pub fn find_last_record(f: &Vec<u8>) -> (r: Option<usize>)
    ensures
        match r {
            Some(s) => last_record_page(f@, page_count(f@)) == Some((s / PAGE_LEN) as nat) && s
                % PAGE_LEN == 0 && s < f@.len(),
            None => last_record_page(f@, page_count(f@)) is None,
        },
{
    let mut k: usize = f.len() / PAGE_LEN + if f.len() % PAGE_LEN == 0 { 0 } else { 1 };
    assert(k == page_count(f@));
    while k > 0
        invariant
            k <= page_count(f@),
            last_record_page(f@, page_count(f@)) == last_record_page(f@, k as nat),
        decreases k,
    {
        assert((k - 1) * 1024 < f@.len()) by (nonlinear_arith)
            requires
                0 < k <= (f@.len() + 1023) / 1024,
        ;
        assert((k - 1) * PAGE_LEN < f@.len());
        let n = f.len();
        let s = (k - 1) * PAGE_LEN;
        if f[s] == TAG_RECORD {
            assert(s / PAGE_LEN == k - 1);
            return Some(s);
        }
        k = k - 1;
    }
    None
}

pub open spec fn pow256(n: nat) -> nat
    decreases n,
{
    if n == 0 {
        1
    } else {
        256 * pow256((n - 1) as nat)
    }
}

/// The `n` low-order bytes of `x`, most significant first.
pub open spec fn be_bytes(x: nat, n: nat) -> Seq<u8>
    decreases n,
{
    if n == 0 {
        seq![]
    } else {
        be_bytes(x / 256, (n - 1) as nat).push((x % 256) as u8)
    }
}

/// The number that the bytes of `s` spell, most significant first.
pub open spec fn be_value(s: Seq<u8>) -> nat
    decreases s.len(),
{
    if s.len() == 0 {
        0
    } else {
        be_value(s.drop_last()) * 256 + s.last() as nat
    }
}

pub proof fn lemma_be_round_trip(x: nat, n: nat)
    requires
        x < pow256(n),
    ensures
        be_bytes(x, n).len() == n,
        be_value(be_bytes(x, n)) == x,
    decreases n,
{
    if n > 0 {
        lemma_be_round_trip(x / 256, (n - 1) as nat);
        assert(be_bytes(x, n).drop_last() =~= be_bytes(x / 256, (n - 1) as nat));
    }
}

proof fn lemma_pow256_grows(i: nat, j: nat)
    requires
        i <= j,
    ensures
        pow256(i) <= pow256(j),
    decreases j,
{
    if i < j {
        lemma_pow256_grows(i, (j - 1) as nat);
    }
}

/// Writes the `n` low-order bytes of `x`, most significant first.
pub fn be_encode(x: u64, n: usize) -> (r: Vec<u8>)
    requires
        n <= 8,
    ensures
        r@ == be_bytes(x as nat, n as nat),
{
    let mut out = vec![0u8; n];
    let mut v = x;
    let mut i = n;
    assert(out@.skip(n as int) =~= seq![]);
    assert(be_bytes(x as nat, n as nat) + seq![] =~= be_bytes(x as nat, n as nat));
    while i > 0
        invariant
            i <= n,
            out@.len() == n,
            be_bytes(x as nat, n as nat) == be_bytes(v as nat, i as nat) + out@.skip(i as int),
        decreases i,
    {
        let ghost before = out@.skip(i as int);
        i = i - 1;
        out.set(i, (v % 256) as u8);
        assert(out@.skip(i as int) =~= seq![(v % 256) as u8] + before);
        assert(be_bytes(v as nat, (i + 1) as nat) + before =~= be_bytes((v / 256) as nat, i as nat)
            + out@.skip(i as int));
        v = v / 256;
    }
    assert(out@.skip(0) =~= out@);
    out
}

/// Reads the number spelled by `n` bytes of `f` from `start` on.
pub fn be_decode(f: &Vec<u8>, start: usize, n: usize) -> (r: u64)
    requires
        n <= 8,
        start + n <= f@.len(),
    ensures
        r as nat == be_value(f@.subrange(start as int, start + n)),
        r < pow256(n as nat),
{
    let mut acc: u64 = 0;
    let mut i: usize = 0;
    let len = f.len();
    assert(f@.subrange(start as int, start as int).len() == 0);
    proof {
        reveal_with_fuel(pow256, 9);
    }
    assert(pow256(8) == 0x1_0000_0000_0000_0000);
    while i < n
        invariant
            i <= n,
            n <= 8,
            start + n <= f@.len(),
            len == f@.len(),
            acc as nat == be_value(f@.subrange(start as int, start + i)),
            acc < pow256(i as nat),
            pow256(8) == 0x1_0000_0000_0000_0000,
        decreases n - i,
    {
        proof {
            lemma_pow256_grows((i + 1) as nat, 8);
        }
        assert(pow256((i + 1) as nat) == 256 * pow256(i as nat));
        assert(acc * 256 + 255 < pow256((i + 1) as nat));
        assert(f@.subrange(start as int, start + i + 1).drop_last() =~= f@.subrange(
            start as int,
            start + i,
        ));
        let b = f[start + i] as u64;
        assert(acc * 256 + b <= u64::MAX);
        acc = acc * 256 + b;
        i = i + 1;
    }
    acc
}

} // verus!
