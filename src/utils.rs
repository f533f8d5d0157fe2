use vstd::prelude::*;

verus! {

/// Hands out `first` on the first call of `get` and `next` on every later one.
pub struct First<T> {
    pub first: T,
    pub next: T,
    pub inited: bool,
}

impl<T: Copy> First<T> {
    pub fn new(first: T, next: T) -> (r: Self)
        ensures
            r.first == first,
            r.next == next,
            !r.inited,
    {
        First { inited: false, first, next }
    }

    pub fn get(&mut self) -> (r: T)
        ensures
            r == (if old(self).inited { old(self).next } else { old(self).first }),
            final(self).inited,
            final(self).first == old(self).first,
            final(self).next == old(self).next,
    {
        if !self.inited {
            self.inited = true;
            self.first
        } else {
            self.next
        }
    }

    pub fn first(&self) -> (r: bool)
        ensures
            r == !self.inited,
    {
        !self.inited
    }
}

pub const BYTE_SIZE: usize = 8;

/// Number of bitmap bytes a fresh window starts with.
pub const WINDOW_BYTES: usize = 16;

/// The mask that selects bit `j` of a byte, counting from the most significant bit.
pub open spec fn mask(j: u8) -> u8 {
    0x80u8 >> j
}

/// Bit `j` of `b`, counting from the most significant bit.
pub open spec fn bit(b: u8, j: u8) -> bool {
    j < 8 && b & mask(j) != 0
}

proof fn lemma_bit_set(b: u8, j: u8, k: u8)
    requires
        j < 8,
        k < 8,
    ensures
        (b | mask(k)) & mask(j) != 0 <==> (b & mask(j) != 0 || j == k),
{
    assert((b | (0x80u8 >> k)) & (0x80u8 >> j) != 0 <==> (b & (0x80u8 >> j) != 0 || j == k))
        by (bit_vector)
        requires
            j < 8,
            k < 8,
    ;
}

proof fn lemma_full_and_empty_bytes(b: u8, j: u8)
    requires
        j < 8,
    ensures
        b == 0xff ==> bit(b, j),
        b == 0 ==> !bit(b, j),
{
    assert(b == 0xff ==> b & (0x80u8 >> j) != 0) by (bit_vector)
        requires
            j < 8,
    ;
    assert(b == 0 ==> b & (0x80u8 >> j) == 0) by (bit_vector);
}

proof fn lemma_byte_from_bits(b: u8)
    ensures
        (forall|j: u8| j < 8 ==> bit(b, j)) ==> b == 0xff,
        b != 0 ==> exists|j: u8| bit(b, j),
{
    if forall|j: u8| j < 8 ==> bit(b, j) {
        assert(bit(b, 0) && bit(b, 1) && bit(b, 2) && bit(b, 3));
        assert(bit(b, 4) && bit(b, 5) && bit(b, 6) && bit(b, 7));
        assert((b & (0x80u8 >> 0u8) != 0 && b & (0x80u8 >> 1u8) != 0 && b & (0x80u8 >> 2u8) != 0
            && b & (0x80u8 >> 3u8) != 0 && b & (0x80u8 >> 4u8) != 0 && b & (0x80u8 >> 5u8) != 0
            && b & (0x80u8 >> 6u8) != 0 && b & (0x80u8 >> 7u8) != 0) ==> b == 0xff) by (bit_vector);
    }
    if b != 0 {
        assert(b != 0 ==> (b & (0x80u8 >> 0u8) != 0 || b & (0x80u8 >> 1u8) != 0 || b & (0x80u8
            >> 2u8) != 0 || b & (0x80u8 >> 3u8) != 0 || b & (0x80u8 >> 4u8) != 0 || b & (0x80u8
            >> 5u8) != 0 || b & (0x80u8 >> 6u8) != 0 || b & (0x80u8 >> 7u8) != 0)) by (bit_vector);
        if bit(b, 0) {
        } else if bit(b, 1) {
        } else if bit(b, 2) {
        } else if bit(b, 3) {
        } else if bit(b, 4) {
        } else if bit(b, 5) {
        } else if bit(b, 6) {
        } else {
            assert(bit(b, 7));
        }
    }
}

/// The transaction ids at or above `head` that have been resolved, one bit
/// each, most significant bit first within a byte. Every id below `head` is
/// resolved.
pub struct Windows {
    pub head: usize,
    pub bitmap: Vec<u8>,
}

/// Number of leading bytes of `s` that are fully set.
pub open spec fn leading_full(s: Seq<u8>) -> nat
    decreases s.len(),
{
    if s.len() == 0 || s[0] != 0xff {
        0
    } else {
        1 + leading_full(s.skip(1))
    }
}

impl Windows {
    /// The ids the bitmap can represent stay within `usize`.
    pub open spec fn wf(&self) -> bool {
        self.head + BYTE_SIZE * self.bitmap.len() <= usize::MAX
    }

    /// Whether transaction id `x` is resolved.
    pub open spec fn resolved(&self, x: int) -> bool {
        x < self.head || {
            let d = x - self.head;
            d / 8 < self.bitmap.len() && bit(self.bitmap@[d / 8], (d % 8) as u8)
        }
    }

    /// The resolved ids at or above `head` are exactly `head .. head + m` for some `m > 0`.
    pub open spec fn is_contiguous(&self) -> bool {
        exists|m: int|
            m > 0 && #[trigger] self.prefix_resolved(m)
    }

    pub open spec fn prefix_resolved(&self, m: int) -> bool {
        forall|x: int| x >= self.head ==> (#[trigger] self.resolved(x) <==> x < self.head + m)
    }

    pub fn start_with(head: usize) -> (r: Self)
        requires
            head + BYTE_SIZE * WINDOW_BYTES <= usize::MAX,
        ensures
            r.wf(),
            r.head == head,
            forall|x: int| #[trigger] r.resolved(x) <==> x < head,
    {
        let r = Windows { head, bitmap: vec![0u8; WINDOW_BYTES] };
        assert forall|x: int| #[trigger] r.resolved(x) <==> x < head by {
            if x >= head {
                let d = x - head;
                if d / 8 < r.bitmap.len() {
                    lemma_full_and_empty_bytes(r.bitmap@[d / 8], (d % 8) as u8);
                }
            }
        }
        r
    }

    /// Whether id `i` is resolved.
    pub fn is_resolved(&self, i: usize) -> (r: bool)
        ensures
            r == self.resolved(i as int),
    {
        if i < self.head {
            return true;
        }
        let diff = i - self.head;
        let idx = diff / BYTE_SIZE;
        idx < self.bitmap.len() && self.bitmap[idx] & (0x80u8 >> ((diff % BYTE_SIZE) as u8)) != 0
    }

    /// Marks id `i` as resolved.
    pub fn put(&mut self, i: usize)
        requires
            old(self).wf(),
            i >= old(self).head,
            i + BYTE_SIZE <= usize::MAX,
        ensures
            final(self).wf(),
            final(self).head == old(self).head,
            final(self).bitmap@.len() == if (i - old(self).head) / 8 < old(self).bitmap@.len() {
                old(self).bitmap@.len() as int
            } else {
                (i - old(self).head) / 8 + 1
            },
            forall|x: int| #[trigger] final(self).resolved(x) <==> (old(self).resolved(x) || x == i),
    {
        let diff = i - self.head;
        let idx = diff / BYTE_SIZE;
        let bit_idx = (diff % BYTE_SIZE) as u8;
        let ghost pre = self.bitmap@;
        if idx >= self.bitmap.len() {
            self.bitmap.resize(idx + 1, 0);
        }
        let old_byte = self.bitmap[idx];
        self.bitmap.set(idx, old_byte | (0x80u8 >> bit_idx));
        let ghost s = *old(self);
        assert forall|x: int| #[trigger] self.resolved(x) <==> (s.resolved(x) || x == i) by {
            if x >= self.head {
                let d = x - self.head;
                let j = (d % 8) as u8;
                if d / 8 == idx {
                    lemma_bit_set(old_byte, j, bit_idx);
                    if idx >= pre.len() {
                        lemma_full_and_empty_bytes(0, j);
                    }
                } else if d / 8 < self.bitmap.len() && d / 8 >= pre.len() {
                    lemma_full_and_empty_bytes(0, j);
                }
            }
        }
    }

    /// Advances `head` over the leading fully resolved bytes and reports
    /// whether the resolved ids at or above the old `head` form one
    /// non-empty contiguous run starting there.
    pub fn completed(&mut self) -> (r: bool)
        requires
            old(self).wf(),
        ensures
            final(self).wf(),
            final(self).head == old(self).head + BYTE_SIZE * leading_full(old(self).bitmap@),
            forall|x: int| #[trigger] final(self).resolved(x) == old(self).resolved(x),
            r == old(self).is_contiguous(),
    {
        let ghost s = *old(self);
        let len = self.bitmap.len();
        let mut lead: usize = 0;
        assert(s.bitmap@.skip(0) =~= s.bitmap@);
        while lead < len && self.bitmap[lead] == 0xff
            invariant
                lead <= len,
                len == self.bitmap.len(),
                *self == s,
                forall|q: int| 0 <= q < lead ==> self.bitmap@[q] == 0xff,
                leading_full(s.bitmap@) == lead + leading_full(s.bitmap@.skip(lead as int)),
            decreases len - lead,
        {
            assert(s.bitmap@.skip(lead as int).skip(1) =~= s.bitmap@.skip(lead + 1));
            lead += 1;
        }
        if lead == len {
            assert(s.bitmap@.skip(len as int).len() == 0);
            self.head = self.head + BYTE_SIZE * len;
            self.bitmap = Vec::with_capacity(WINDOW_BYTES);
            proof {
                assert forall|x: int| #[trigger] self.resolved(x) == s.resolved(x) by {
                    if s.head <= x < self.head {
                        let d = x - s.head;
                        lemma_full_and_empty_bytes(s.bitmap@[d / 8], (d % 8) as u8);
                    }
                }
                if len > 0 {
                    assert forall|x: int| x >= s.head implies (#[trigger] s.resolved(x) <==> x
                        < s.head + 8 * len) by {
                        let d = x - s.head;
                        if d / 8 < len {
                            lemma_full_and_empty_bytes(s.bitmap@[d / 8], (d % 8) as u8);
                        }
                    }
                    assert(s.prefix_resolved(8 * len));
                } else {
                    assert forall|m: int| m > 0 implies !#[trigger] s.prefix_resolved(m) by {
                        assert(!s.resolved(s.head as int));
                    }
                }
            }
            return len > 0;
        }
        assert(s.bitmap@.skip(lead as int)[0] == s.bitmap@[lead as int]);
        let b = self.bitmap[lead];
        let mut n: u8 = 0;
        while n < 8 && b & (0x80u8 >> n) != 0
            invariant
                n <= 8,
                forall|j: u8| j < n ==> bit(b, j),
            decreases 8 - n,
        {
            n += 1;
        }
        proof {
            lemma_byte_from_bits(b);
        }
        assert(n < 8 && !bit(b, n));
        let mut stray = false;
        let ghost mut stray_at: u8 = 0;
        let mut j: u8 = n + 1;
        while j < 8
            invariant
                n < j <= 8,
                stray ==> n < stray_at < 8 && bit(b, stray_at),
                !stray ==> forall|k: u8| n < k < j ==> !bit(b, k),
            decreases 8 - j,
        {
            if b & (0x80u8 >> j) != 0 {
                stray = true;
                proof {
                    stray_at = j;
                }
            }
            j += 1;
        }
        let mut rest_zero = true;
        let ghost mut nonzero_at: int = 0;
        let mut i: usize = lead + 1;
        while i < len
            invariant
                lead < i <= len || (i == lead + 1 && lead + 1 >= len),
                lead < len,
                len == self.bitmap.len(),
                *self == s,
                rest_zero ==> forall|q: int| lead < q < i ==> self.bitmap@[q] == 0,
                !rest_zero ==> lead < nonzero_at < len && self.bitmap@[nonzero_at] != 0,
            decreases len - i,
        {
            if self.bitmap[i] != 0 {
                rest_zero = false;
                proof {
                    nonzero_at = i as int;
                }
            }
            i += 1;
        }
        let tail = self.bitmap.split_off(lead);
        self.bitmap = tail;
        self.head = self.head + BYTE_SIZE * lead;
        let r = !stray && rest_zero && !(n == 0 && lead == 0);
        proof {
            assert forall|x: int| #[trigger] self.resolved(x) == s.resolved(x) by {
                if s.head <= x < self.head {
                    let d = x - s.head;
                    lemma_full_and_empty_bytes(s.bitmap@[d / 8], (d % 8) as u8);
                }
                if x >= self.head {
                    let d = x - s.head;
                    let e = x - self.head;
                    assert(e / 8 == d / 8 - lead && e % 8 == d % 8);
                }
            }
            let x1 = s.head + 8 * lead + n;
            assert(!s.resolved(x1)) by {
                assert((x1 - s.head) / 8 == lead && (x1 - s.head) % 8 == n);
            }
            if r {
                let m = 8 * lead + n;
                assert forall|x: int| x >= s.head implies (#[trigger] s.resolved(x) <==> x < s.head
                    + m) by {
                    let d = x - s.head;
                    if d / 8 < lead {
                        lemma_full_and_empty_bytes(s.bitmap@[d / 8], (d % 8) as u8);
                    } else if d / 8 == lead {
                    } else if d / 8 < len {
                        lemma_full_and_empty_bytes(s.bitmap@[d / 8], (d % 8) as u8);
                    }
                }
                assert(s.prefix_resolved(m));
            } else {
                let x2: int = if n == 0 && lead == 0 {
                    s.head as int
                } else if stray {
                    s.head + 8 * lead + stray_at
                } else {
                    lemma_byte_from_bits(s.bitmap@[nonzero_at]);
                    let j2 = choose|j2: u8| bit(s.bitmap@[nonzero_at], j2);
                    assert((8 * nonzero_at + j2) / 8 == nonzero_at && (8 * nonzero_at + j2) % 8
                        == j2);
                    s.head + 8 * nonzero_at + j2
                };
                if !(n == 0 && lead == 0) {
                    assert(s.resolved(x2) && x1 < x2) by {
                        if stray {
                            assert((x2 - s.head) / 8 == lead && (x2 - s.head) % 8 == stray_at);
                        }
                    }
                }
                assert forall|m: int| m > 0 implies !#[trigger] s.prefix_resolved(m) by {
                    if n == 0 && lead == 0 {
                        assert((x1 - s.head) / 8 == 0);
                    } else if s.prefix_resolved(m) {
                        assert(s.resolved(x2));
                    }
                }
            }
        }
        r
    }
}

} // verus!
