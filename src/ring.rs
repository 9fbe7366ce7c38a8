//! A fixed-capacity ring of bytes that remembers the most recent bytes pushed
//! into it, used to spot a delimiter in a stream read chunk by chunk.
use vstd::prelude::*;

verus! {

/// The window of a ring whose logical contents are `v` once `b` is pushed:
/// the oldest byte leaves and `b` becomes the newest.
pub open spec fn step(v: Seq<u8>, b: u8) -> Seq<u8> {
    if v.len() == 0 {
        v
    } else {
        v.drop_first().push(b)
    }
}

/// The window after every byte of `s` is pushed, in order.
pub open spec fn feed(v: Seq<u8>, s: Seq<u8>) -> Seq<u8>
    decreases s.len(),
{
    if s.len() == 0 {
        v
    } else {
        step(feed(v, s.drop_last()), s.last())
    }
}

/// `n` zero bytes: the contents of a freshly made ring.
pub open spec fn zeros(n: nat) -> Seq<u8> {
    Seq::new(n, |i: int| 0u8)
}

/// `p` occurs somewhere in `s` as a contiguous run.
pub open spec fn occurs(s: Seq<u8>, p: Seq<u8>) -> bool {
    exists|i: int| 0 <= i && i + p.len() <= s.len() && #[trigger] s.subrange(i, i + p.len()) == p
}

/// The window is the last `v.len()` bytes of everything seen, starting from `v`.
pub proof fn lemma_feed_window(v: Seq<u8>, s: Seq<u8>)
    ensures
        feed(v, s) == (v + s).subrange(s.len() as int, (v.len() + s.len()) as int),
    decreases s.len(),
{
    if s.len() == 0 {
        assert((v + s).subrange(0, v.len() as int) =~= v);
    } else {
        lemma_feed_window(v, s.drop_last());
        let w = feed(v, s.drop_last());
        let t = v + s;
        if v.len() > 0 {
            assert(w.drop_first().push(s.last()) =~= t.subrange(s.len() as int, (v.len() + s.len()) as int));
        } else {
            assert(t.subrange(s.len() as int, s.len() as int) =~= v);
        }
    }
}

/// Feeding a stream in two parts leaves the same window as feeding it whole.
pub proof fn lemma_feed_concat(v: Seq<u8>, a: Seq<u8>, b: Seq<u8>)
    ensures
        feed(feed(v, a), b) == feed(v, a + b),
{
    lemma_feed_window(v, a);
    lemma_feed_window(feed(v, a), b);
    lemma_feed_window(v, a + b);
    assert(feed(feed(v, a), b) =~= feed(v, a + b));
}

/// A stream cut anywhere into two chunks gives, after each byte of the second
/// chunk, the same window (and so the same match answer) as the uncut stream
/// gives after the same byte.
pub proof fn split_feed_matches_whole(v: Seq<u8>, a: Seq<u8>, b: Seq<u8>, k: int)
    requires
        0 <= k <= b.len(),
    ensures
        feed(feed(v, a), b.take(k)) == feed(v, (a + b).take(a.len() + k)),
{
    lemma_feed_concat(v, a, b.take(k));
    assert(a + b.take(k) =~= (a + b).take(a.len() + k));
}

/// A fresh ring fed a stream that never contains `p` never holds `p`, as long
/// as `p` has no zero byte (the ring starts out full of zeros).
pub proof fn no_match_without_occurrence(p: Seq<u8>, s: Seq<u8>, k: int)
    requires
        forall|i: int| 0 <= i < p.len() ==> p[i] != 0,
        !occurs(s, p),
        0 <= k <= s.len(),
    ensures
        feed(zeros(p.len()), s.take(k)) != p,
{
    let n = p.len();
    let u = s.take(k);
    lemma_feed_window(zeros(n), u);
    let w = feed(zeros(n), u);
    if n == 0 {
        assert(s.subrange(0, 0 + p.len() as int) =~= p);
    } else if k >= n {
        assert(w =~= s.subrange(k - n, k - n + n));
    } else {
        assert(w[0] == (zeros(n) + u)[k]);
        assert(w[0] != p[0]);
    }
}

/// A ring of bytes with a fixed capacity, read oldest byte first.
pub struct CircularBuffer {
    buffer: Vec<u8>,
    index: usize,
}

impl View for CircularBuffer {
    type V = Seq<u8>;

    /// The bytes held, oldest first, starting at the write cursor.
    closed spec fn view(&self) -> Seq<u8> {
        Seq::new(self.buffer@.len(), |i: int| self.buffer@[self.slot(i)])
    }
}

impl CircularBuffer {
    /// Where the `i`-th oldest byte is stored.
    spec fn slot(&self, i: int) -> int {
        if self.index + i < self.buffer@.len() {
            self.index + i
        } else {
            self.index + i - self.buffer@.len()
        }
    }

    /// The cursor points into the buffer, or is 0 for an empty one.
    pub closed spec fn wf(&self) -> bool {
        if self.buffer@.len() == 0 {
            self.index == 0
        } else {
            self.index < self.buffer@.len()
        }
    }

    /// A ring of `size` zero bytes.
    pub fn new(size: usize) -> (r: CircularBuffer)
        ensures
            r.wf(),
            r@ == zeros(size as nat),
    {
        let r = CircularBuffer { buffer: vec![0u8; size], index: 0 };
        assert(r@ =~= zeros(size as nat));
        r
    }

    /// Overwrites the oldest byte with `value`; on a ring of capacity 0
    /// nothing changes.
    pub fn push(&mut self, value: u8)
        requires
            old(self).wf(),
        ensures
            final(self).wf(),
            final(self)@ == step(old(self)@, value),
    {
        let len = self.buffer.len();
        if len == 0 {
            return;
        }
        let ghost before = self@;
        self.buffer.set(self.index, value);
        self.index = if self.index + 1 == len { 0 } else { self.index + 1 };
        assert(self@ =~= before.drop_first().push(value));
    }

    /// The `ith` oldest byte.
    pub fn get(&self, ith: usize) -> (r: u8)
        requires
            self.wf(),
            ith < self@.len(),
        ensures
            r == self@[ith as int],
    {
        let len = self.buffer.len();
        let at = if ith < len - self.index { self.index + ith } else { ith - (len - self.index) };
        self.buffer[at]
    }

    /// The bytes held, oldest first.
    pub fn iter(&self) -> (r: Vec<u8>)
        requires
            self.wf(),
        ensures
            r@ == self@,
    {
        let len = self.buffer.len();
        let mut out: Vec<u8> = Vec::with_capacity(len);
        let mut i: usize = 0;
        while i < len
            invariant
                self.wf(),
                len == self@.len(),
                i <= len,
                out@ == self@.take(i as int),
            decreases len - i,
        {
            out.push(self.get(i));
            i += 1;
            assert(out@ =~= self@.take(i as int));
        }
        assert(self@.take(len as int) =~= self@);
        out
    }

    /// Whether the bytes held, oldest first, are exactly `subarray`; false at
    /// once when the lengths differ.
    pub fn contains(&self, subarray: &[u8]) -> (r: bool)
        requires
            self.wf(),
        ensures
            r == (subarray@ == self@),
    {
        let len = self.buffer.len();
        if subarray.len() != len {
            return false;
        }
        let mut i: usize = 0;
        while i < len
            invariant
                self.wf(),
                len == self@.len(),
                len == subarray@.len(),
                i <= len,
                forall|j: int| 0 <= j < i ==> subarray@[j] == self@[j],
            decreases len - i,
        {
            if self.get(i) != subarray[i] {
                return false;
            }
            i += 1;
        }
        assert(subarray@ =~= self@);
        true
    }
}

} // verus!
