//! The streaming packet scanner: bytes go in chunk by chunk, and the scanner
//! reports the first packet bracketed by the opening and closing delimiters,
//! within a ceiling on the number of bytes it examines.
use vstd::prelude::*;
use vstd::slice::slice_subrange;
use crate::ring::{CircularBuffer, feed, lemma_feed_window, occurs, step, zeros};

verus! {

/// The opening delimiter, `<x:xmpmeta`.
pub open spec fn open_delim() -> Seq<u8> {
    seq![60u8, 120u8, 58u8, 120u8, 109u8, 112u8, 109u8, 101u8, 116u8, 97u8]
}

/// The closing delimiter, `</x:xmpmeta>`.
pub open spec fn close_delim() -> Seq<u8> {
    seq![60u8, 47u8, 120u8, 58u8, 120u8, 109u8, 112u8, 109u8, 101u8, 116u8, 97u8, 62u8]
}

/// No byte of `p` is zero.
pub open spec fn nonzero(p: Seq<u8>) -> bool {
    forall|i: int| 0 <= i < p.len() ==> p[i] != 0
}

/// `p` ends just before position `e` of `s`.
pub open spec fn ends_at(s: Seq<u8>, p: Seq<u8>, e: int) -> bool {
    p.len() <= e <= s.len() && s.subrange(e - p.len(), e) == p
}

/// `e` is the first end of an occurrence of `p` in `s` lying wholly at or
/// after position `from`.
pub open spec fn first_end(s: Seq<u8>, p: Seq<u8>, from: int, e: int) -> bool {
    &&& from + p.len() <= e
    &&& ends_at(s, p, e)
    &&& forall|x: int| from + p.len() <= x < e ==> !#[trigger] ends_at(s, p, x)
}

/// The first opening delimiter of `s` ends at `e1`, and the first closing
/// delimiter after it ends at `e2`.
pub open spec fn packet_span(s: Seq<u8>, e1: int, e2: int) -> bool {
    first_end(s, open_delim(), 0, e1) && first_end(s, close_delim(), e1, e2)
}

/// The packet of stream `s` when at most `cap` bytes may be examined: the
/// opening delimiter followed by everything up to and including the first
/// closing delimiter after it.
#[verifier::opaque]
pub open spec fn packet_in(s: Seq<u8>, cap: int) -> Option<Seq<u8>> {
    if exists|e1: int, e2: int| #[trigger] packet_span(s, e1, e2) && e2 <= cap {
        let (e1, e2) = choose|e1: int, e2: int| #[trigger] packet_span(s, e1, e2) && e2 <= cap;
        Some(open_delim() + s.subrange(e1, e2))
    } else {
        None
    }
}

/// The bytes of an optional packet.
pub open spec fn bytes_of(r: Option<Vec<u8>>) -> Option<Seq<u8>> {
    match r {
        Some(v) => Some(v@),
        None => None,
    }
}

proof fn lemma_delims_nonzero()
    ensures
        nonzero(open_delim()),
        nonzero(close_delim()),
        open_delim().len() == 10,
        close_delim().len() == 12,
{
    assert(nonzero(open_delim()));
    assert(nonzero(close_delim()));
}

/// A fresh ring fed `u` holds `p` exactly when `u` ends with `p`.
proof fn lemma_window_match(p: Seq<u8>, u: Seq<u8>)
    requires
        nonzero(p),
    ensures
        (feed(zeros(p.len()), u) == p) == ends_at(u, p, u.len() as int),
{
    let n = p.len();
    lemma_feed_window(zeros(n), u);
    let w = feed(zeros(n), u);
    if u.len() >= n {
        assert(w =~= u.subrange(u.len() - n, u.len() as int));
    } else {
        assert(w[0] == 0);
        assert(w[0] != p[0]);
    }
}

/// Appending a byte does not change where `p` ends within the old bytes.
proof fn lemma_ends_at_push(t: Seq<u8>, b: u8, p: Seq<u8>)
    ensures
        forall|x: int| x <= t.len() ==> ends_at(t.push(b), p, x) == #[trigger] ends_at(t, p, x),
{
    assert forall|x: int| x <= t.len() implies ends_at(t.push(b), p, x) == #[trigger] ends_at(t, p, x) by {
        if p.len() <= x && 0 <= x - p.len() {
            assert(t.push(b).subrange(x - p.len(), x) =~= t.subrange(x - p.len(), x));
        }
    }
}

/// A first end stays the first end when a byte is appended.
proof fn lemma_first_end_push(t: Seq<u8>, b: u8, p: Seq<u8>, from: int, e: int)
    requires
        first_end(t, p, from, e),
    ensures
        first_end(t.push(b), p, from, e),
{
    lemma_ends_at_push(t, b, p);
    assert forall|x: int| from + p.len() <= x < e implies !#[trigger] ends_at(t.push(b), p, x) by {
        assert(!ends_at(t, p, x));
    }
}

/// Within a prefix, `p` ends at the same places as in the whole stream.
proof fn lemma_ends_at_take(s: Seq<u8>, m: int, p: Seq<u8>)
    requires
        0 <= m <= s.len(),
    ensures
        forall|x: int| x <= m ==> ends_at(s.take(m), p, x) == #[trigger] ends_at(s, p, x),
{
    assert forall|x: int| x <= m implies ends_at(s.take(m), p, x) == #[trigger] ends_at(s, p, x) by {
        if p.len() <= x && 0 <= x - p.len() {
            assert(s.take(m).subrange(x - p.len(), x) =~= s.subrange(x - p.len(), x));
        }
    }
}

/// Past position `e1`, `p` ends at the same places in the tail `t.skip(e1)`.
proof fn lemma_ends_at_skip(t: Seq<u8>, e1: int, p: Seq<u8>, x: int)
    requires
        0 <= e1 <= t.len(),
        e1 + p.len() <= x,
    ensures
        ends_at(t.skip(e1), p, x - e1) == ends_at(t, p, x),
{
    if x <= t.len() {
        assert(t.skip(e1).subrange(x - e1 - p.len(), x - e1) =~= t.subrange(x - p.len(), x));
    }
}

/// Within a prefix, the first end of `p` after `from` is that of the whole
/// stream.
proof fn lemma_first_end_take(s: Seq<u8>, m: int, p: Seq<u8>, from: int, e: int)
    requires
        0 <= m <= s.len(),
        e <= m,
    ensures
        first_end(s.take(m), p, from, e) == first_end(s, p, from, e),
{
    lemma_ends_at_take(s, m, p);
    if first_end(s, p, from, e) {
        assert forall|x: int| from + p.len() <= x < e implies !#[trigger] ends_at(s.take(m), p, x) by {
            assert(!ends_at(s, p, x));
        }
    }
    if first_end(s.take(m), p, from, e) {
        assert forall|x: int| from + p.len() <= x < e implies !#[trigger] ends_at(s, p, x) by {
            assert(!ends_at(s.take(m), p, x));
        }
    }
}

/// A span found within a prefix is the span of the whole stream.
proof fn lemma_span_take(s: Seq<u8>, m: int, e1: int, e2: int)
    requires
        0 <= m <= s.len(),
        e2 <= m,
    ensures
        packet_span(s.take(m), e1, e2) == packet_span(s, e1, e2),
{
    lemma_delims_nonzero();
    lemma_first_end_take(s, m, close_delim(), e1, e2);
    if e1 <= m {
        lemma_first_end_take(s, m, open_delim(), 0, e1);
    }
}

/// A stream has at most one packet span.
proof fn lemma_span_unique(s: Seq<u8>, e1: int, e2: int, f1: int, f2: int)
    requires
        packet_span(s, e1, e2),
        packet_span(s, f1, f2),
    ensures
        e1 == f1,
        e2 == f2,
{
    lemma_delims_nonzero();
    if e1 < f1 {
        assert(!ends_at(s, open_delim(), e1));
    } else if f1 < e1 {
        assert(!ends_at(s, open_delim(), f1));
    }
    if e2 < f2 {
        assert(!ends_at(s, close_delim(), e2));
    } else if f2 < e2 {
        assert(!ends_at(s, close_delim(), f2));
    }
}

/// The packet of a stream whose span is known.
proof fn lemma_packet_in_span(s: Seq<u8>, cap: int, e1: int, e2: int)
    requires
        packet_span(s, e1, e2),
        e2 <= cap,
    ensures
        packet_in(s, cap) == Some(open_delim() + s.subrange(e1, e2)),
{
    reveal(packet_in);
    let (f1, f2) = choose|f1: int, f2: int| #[trigger] packet_span(s, f1, f2) && f2 <= cap;
    lemma_span_unique(s, e1, e2, f1, f2);
}

/// The opening delimiter's bytes.
pub fn open_delimiter() -> (r: Vec<u8>)
    ensures
        r@ == open_delim(),
{
    let r = vec![60u8, 120u8, 58u8, 120u8, 109u8, 112u8, 109u8, 101u8, 116u8, 97u8];
    assert(r@ =~= open_delim());
    r
}

/// The closing delimiter's bytes.
pub fn close_delimiter() -> (r: Vec<u8>)
    ensures
        r@ == close_delim(),
{
    let r = vec![60u8, 47u8, 120u8, 58u8, 120u8, 109u8, 112u8, 109u8, 101u8, 116u8, 97u8, 62u8];
    assert(r@ =~= close_delim());
    r
}

/// What one call of [`PacketScanner::feed`] reports.
#[derive(Debug, PartialEq, Eq)]
pub enum ScanStatus {
    /// No packet yet and the ceiling not reached: feed more, or stop at the
    /// end of the data with no packet.
    Pending,
    /// The packet, delimiters included.
    Found(Vec<u8>),
    /// The ceiling was reached first: no packet.
    CapReached,
}

/// The scanner's state while it looks for the packet of one stream.
pub struct PacketScanner {
    open_ring: CircularBuffer,
    close_ring: CircularBuffer,
    open_pattern: Vec<u8>,
    close_pattern: Vec<u8>,
    open_found: bool,
    finished: bool,
    packet: Vec<u8>,
    examined: u64,
    ceiling: u64,
    seen: Ghost<Seq<u8>>,
    open_end: Ghost<int>,
}

impl PacketScanner {
    /// The bytes examined so far.
    pub closed spec fn stream(&self) -> Seq<u8> {
        self.seen@
    }

    /// The most bytes this scanner examines.
    pub closed spec fn cap(&self) -> nat {
        self.ceiling as nat
    }

    /// The scanner has reported neither a packet nor the ceiling.
    pub closed spec fn pending(&self) -> bool {
        !self.finished
    }

    /// What the scanner has learnt of the bytes examined so far: no packet
    /// ends among them, the rings hold their latest bytes, and once the
    /// opening delimiter is seen the packet holds it and everything since.
    spec fn inv_pending(&self) -> bool {
        let t = self.seen@;
        if !self.open_found {
            &&& self.open_ring@ == feed(zeros(10), t)
            &&& self.close_ring@ == zeros(12)
            &&& forall|x: int| !#[trigger] ends_at(t, open_delim(), x)
        } else {
            let e1 = self.open_end@;
            &&& first_end(t, open_delim(), 0, e1)
            &&& self.close_ring@ == feed(zeros(12), t.skip(e1))
            &&& self.packet@ == open_delim() + t.skip(e1)
            &&& forall|x: int| e1 + 12 <= x ==> !#[trigger] ends_at(t, close_delim(), x)
        }
    }

    /// The scanner's fields agree with the bytes examined.
    pub closed spec fn wf(&self) -> bool {
        &&& self.open_ring.wf()
        &&& self.close_ring.wf()
        &&& self.open_pattern@ == open_delim()
        &&& self.close_pattern@ == close_delim()
        &&& self.examined == self.seen@.len()
        &&& self.examined <= self.ceiling
        &&& !self.finished ==> self.inv_pending()
    }

    /// A scanner that will examine at most `ceiling` bytes.
    pub fn new(ceiling: u64) -> (r: PacketScanner)
        ensures
            r.wf(),
            r.pending(),
            r.stream() == Seq::<u8>::empty(),
            r.cap() == ceiling,
    {
        let open_pattern = open_delimiter();
        let close_pattern = close_delimiter();
        proof {
            lemma_delims_nonzero();
        }
        let r = PacketScanner {
            open_ring: CircularBuffer::new(open_pattern.len()),
            close_ring: CircularBuffer::new(close_pattern.len()),
            open_pattern,
            close_pattern,
            open_found: false,
            finished: false,
            packet: Vec::new(),
            examined: 0,
            ceiling,
            seen: Ghost(Seq::empty()),
            open_end: Ghost(0),
        };
        proof {
            let t = Seq::<u8>::empty();
            assert forall|x: int| !#[trigger] ends_at(t, open_delim(), x) by {}
        }
        r
    }

    /// The number of bytes examined so far.
    pub fn examined(&self) -> (r: u64)
        requires
            self.wf(),
        ensures
            r == self.stream().len(),
    {
        self.examined
    }

    /// Examines the bytes of `chunk` in order, continuing the stream fed so
    /// far, and stops at the first of: the packet's closing delimiter, the
    /// ceiling, the chunk's end. The answer is that of the whole stream
    /// offered so far, `stream() + chunk`, cut at the ceiling.
    pub fn feed(&mut self, chunk: &[u8]) -> (r: ScanStatus)
        requires
            old(self).wf(),
            old(self).pending(),
        ensures
            final(self).wf(),
            final(self).cap() == old(self).cap(),
            final(self).stream().len() <= final(self).cap(),
            final(self).stream() == (old(self).stream() + chunk@).take(final(self).stream().len() as int),
            match r {
                ScanStatus::Found(p) => {
                    &&& packet_in(old(self).stream() + chunk@, old(self).cap() as int) == Some(p@)
                    &&& !final(self).pending()
                },
                ScanStatus::CapReached => {
                    &&& packet_in(old(self).stream() + chunk@, old(self).cap() as int) is None
                    &&& (old(self).stream() + chunk@).len() > old(self).cap()
                    &&& !final(self).pending()
                },
                ScanStatus::Pending => {
                    &&& packet_in(old(self).stream() + chunk@, old(self).cap() as int) is None
                    &&& (old(self).stream() + chunk@).len() <= old(self).cap()
                    &&& final(self).pending()
                    &&& final(self).stream() == old(self).stream() + chunk@
                },
            },
    {
        let ghost all = self.seen@ + chunk@;
        let ghost cap = self.ceiling as int;
        let mut i: usize = 0;
        assert(all.take(old(self).stream().len() as int) =~= self.seen@);
        while i < chunk.len()
            invariant
                self.wf(),
                self.pending(),
                self.ceiling == cap,
                self.ceiling == old(self).ceiling,
                all == old(self).stream() + chunk@,
                i <= chunk@.len(),
                self.seen@ == all.take(old(self).stream().len() + i),
            decreases chunk@.len() - i,
        {
            let ghost t = self.seen@;
            proof {
                self.lemma_no_span();
            }
            if self.examined == self.ceiling {
                self.finished = true;
                proof {
                    self.lemma_none_beyond(all, t.len() as int);
                }
                return ScanStatus::CapReached;
            }
            let done = self.examine(chunk[i]);
            proof {
                assert(all.take(t.len() + 1int) =~= self.seen@);
            }
            if done {
                let mut out: Vec<u8> = Vec::new();
                std::mem::swap(&mut out, &mut self.packet);
                proof {
                    let e1 = self.open_end@;
                    let e2 = self.seen@.len() as int;
                    lemma_span_take(all, e2, e1, e2);
                    lemma_packet_in_span(all, cap, e1, e2);
                }
                return ScanStatus::Found(out);
            }
            i += 1;
        }
        proof {
            assert(all.take(all.len() as int) =~= all);
            self.lemma_no_span();
            self.lemma_none_beyond(all, all.len() as int);
        }
        ScanStatus::Pending
    }

    /// Examines one more byte, below the ceiling; true when it completes the
    /// packet, which `packet` then holds.
    fn examine(&mut self, b: u8) -> (done: bool)
        requires
            old(self).wf(),
            old(self).pending(),
            old(self).examined < old(self).ceiling,
        ensures
            final(self).wf(),
            final(self).ceiling == old(self).ceiling,
            final(self).seen@ == old(self).seen@.push(b),
            done != final(self).pending(),
            done ==> packet_span(final(self).seen@, final(self).open_end@, final(self).seen@.len() as int),
            done ==> final(self).packet@ == open_delim() + final(self).seen@.subrange(
                final(self).open_end@,
                final(self).seen@.len() as int,
            ),
    {
        proof {
            lemma_delims_nonzero();
        }
        let ghost t = self.seen@;
        self.examined = self.examined + 1;
        self.seen = Ghost(t.push(b));
        let ghost t2 = t.push(b);
        proof {
            lemma_ends_at_push(t, b, open_delim());
            lemma_ends_at_push(t, b, close_delim());
            assert(t2.drop_last() =~= t);
        }
        if !self.open_found {
            self.open_ring.push(b);
            proof {
                assert(feed(zeros(10), t2) == step(feed(zeros(10), t), b));
                lemma_window_match(open_delim(), t2);
            }
            let found = self.open_ring.contains(self.open_pattern.as_slice());
            if found {
                self.open_found = true;
                self.open_end = Ghost(t2.len() as int);
                self.packet = open_delimiter();
                proof {
                    assert(t2.skip(t2.len() as int) =~= Seq::<u8>::empty());
                    assert(self.packet@ =~= open_delim() + t2.skip(t2.len() as int));
                    assert forall|x: int| 10 <= x < t2.len() implies !#[trigger] ends_at(t2, open_delim(), x) by {
                        assert(!ends_at(t, open_delim(), x));
                    }
                    assert(first_end(t2, open_delim(), 0, t2.len() as int));
                    assert(self.close_ring@ == feed(zeros(12), t2.skip(self.open_end@)));
                }
                assert(self.inv_pending());
            } else {
                proof {
                    assert forall|x: int| !#[trigger] ends_at(t2, open_delim(), x) by {
                        if x < t2.len() {
                            assert(!ends_at(t, open_delim(), x));
                        }
                    }
                }
            }
            false
        } else {
            let ghost e1 = self.open_end@;
            self.close_ring.push(b);
            self.packet.push(b);
            proof {
                lemma_first_end_push(t, b, open_delim(), 0, e1);
                assert(t2.skip(e1) =~= t.skip(e1).push(b));
                assert(t2.skip(e1).drop_last() =~= t.skip(e1));
                assert(feed(zeros(12), t2.skip(e1)) == step(feed(zeros(12), t.skip(e1)), b));
                assert(self.packet@ =~= open_delim() + t2.skip(e1));
                lemma_window_match(close_delim(), t2.skip(e1));
                assert forall|x: int| e1 + 12 <= x && x < t2.len() implies !#[trigger] ends_at(t2, close_delim(), x) by {
                    assert(!ends_at(t, close_delim(), x));
                }
                if e1 + 12 <= t2.len() {
                    lemma_ends_at_skip(t2, e1, close_delim(), t2.len() as int);
                } else {
                    assert(!ends_at(t2.skip(e1), close_delim(), t2.skip(e1).len() as int));
                }
            }
            if self.close_ring.contains(self.close_pattern.as_slice()) {
                self.finished = true;
                proof {
                    assert(t2.skip(e1) =~= t2.subrange(e1, t2.len() as int));
                }
                true
            } else {
                proof {
                    assert forall|x: int| e1 + 12 <= x implies !#[trigger] ends_at(t2, close_delim(), x) by {
                        if x < t2.len() {
                            assert(!ends_at(t, close_delim(), x));
                        }
                    }
                }
                assert(self.inv_pending());
                false
            }
        }
    }

    /// While pending, no packet span lies within the bytes examined.
    proof fn lemma_no_span(&self)
        requires
            self.wf(),
            self.pending(),
        ensures
            forall|e1: int, e2: int| !#[trigger] packet_span(self.seen@, e1, e2),
    {
        assert forall|e1: int, e2: int| !#[trigger] packet_span(self.seen@, e1, e2) by {
            if packet_span(self.seen@, e1, e2) {
                if self.open_found {
                    let f1 = self.open_end@;
                    if e1 < f1 {
                        assert(!ends_at(self.seen@, open_delim(), e1));
                    } else if f1 < e1 {
                        assert(!ends_at(self.seen@, open_delim(), f1));
                    }
                    assert(ends_at(self.seen@, close_delim(), e2));
                } else {
                    assert(ends_at(self.seen@, open_delim(), e1));
                }
            }
        }
    }

    /// With no span in the first `m` bytes of `all`, and `m` at the ceiling
    /// or at the end of `all`, `all` has no packet within the ceiling.
    proof fn lemma_none_beyond(&self, all: Seq<u8>, m: int)
        requires
            0 <= m <= all.len(),
            self.seen@ == all.take(m),
            m == all.len() || m == self.ceiling,
            forall|e1: int, e2: int| !#[trigger] packet_span(self.seen@, e1, e2),
        ensures
            packet_in(all, self.ceiling as int) is None,
    {
        reveal(packet_in);
        if exists|e1: int, e2: int| #[trigger] packet_span(all, e1, e2) && e2 <= self.ceiling {
            let (e1, e2) = choose|e1: int, e2: int| #[trigger] packet_span(all, e1, e2) && e2 <= self.ceiling;
            lemma_span_take(all, m, e1, e2);
            assert(packet_span(self.seen@, e1, e2));
        }
    }
}

/// Where a prefix of `m` bytes already decides the packet, the whole stream
/// has the same one.
proof fn lemma_packet_in_take(s: Seq<u8>, m: int, cap: int)
    requires
        0 <= m <= s.len(),
    ensures
        packet_in(s.take(m), cap) is Some ==> packet_in(s, cap) == packet_in(s.take(m), cap),
        cap <= m && packet_in(s.take(m), cap) is None ==> packet_in(s, cap) is None,
{
    reveal(packet_in);
    let t = s.take(m);
    if packet_in(t, cap) is Some {
        let (e1, e2) = choose|e1: int, e2: int| #[trigger] packet_span(t, e1, e2) && e2 <= cap;
        lemma_span_take(s, m, e1, e2);
        lemma_packet_in_span(s, cap, e1, e2);
        assert(t.subrange(e1, e2) =~= s.subrange(e1, e2));
    }
    if cap <= m && packet_in(s, cap) is Some {
        let (e1, e2) = choose|e1: int, e2: int| #[trigger] packet_span(s, e1, e2) && e2 <= cap;
        lemma_span_take(s, m, e1, e2);
        assert(packet_span(t, e1, e2));
    }
}

/// Sizes that govern a scan: the chunk read at a time, how many bytes from
/// the end the tail phase starts, and the most bytes one phase examines.
#[derive(Clone, Copy, Debug)]
pub struct ScanConfig {
    pub chunk_size: usize,
    pub tail_window: u64,
    pub ceiling: u64,
}

/// 128 KiB read at a time.
pub const DEFAULT_CHUNK_SIZE: usize = 131072;

/// The tail phase looks at the last 1 MiB.
pub const DEFAULT_TAIL_WINDOW: u64 = 1048576;

/// A phase examines at most 1 GiB.
pub const DEFAULT_CEILING: u64 = 1073741824;

impl Default for ScanConfig {
    fn default() -> (r: ScanConfig)
        ensures
            r.chunk_size == DEFAULT_CHUNK_SIZE,
            r.tail_window == DEFAULT_TAIL_WINDOW,
            r.ceiling == DEFAULT_CEILING,
    {
        ScanConfig {
            chunk_size: DEFAULT_CHUNK_SIZE,
            tail_window: DEFAULT_TAIL_WINDOW,
            ceiling: DEFAULT_CEILING,
        }
    }
}

/// The two phases of a lookup: first the tail of the data, then all of it.
#[derive(Clone, Copy, Debug, PartialEq, Eq, Structural)]
pub enum Phase {
    Tail,
    Full,
}

/// Where a phase starts reading data of `len` bytes: `window` bytes before
/// the end for the tail (the start, for shorter data), the start for a full
/// scan.
pub open spec fn start_of(len: int, phase: Phase, window: int) -> int {
    match phase {
        Phase::Tail => if len > window {
            len - window
        } else {
            0
        },
        Phase::Full => 0,
    }
}

/// The offset a phase starts reading at, in data of `len` bytes.
pub fn phase_start(len: u64, phase: Phase, window: u64) -> (r: u64)
    ensures
        r == start_of(len as int, phase, window as int),
{
    match phase {
        Phase::Tail => if len > window {
            len - window
        } else {
            0
        },
        Phase::Full => 0,
    }
}

/// What one phase finds in `data`.
pub open spec fn phase_packet(data: Seq<u8>, phase: Phase, window: int, cap: int) -> Option<Seq<u8>> {
    packet_in(data.skip(start_of(data.len() as int, phase, window)), cap)
}

/// Runs one phase over `data`, feeding it to a scanner one chunk at a time.
pub fn scan_slice(data: &[u8], phase: Phase, config: &ScanConfig) -> (r: Option<Vec<u8>>)
    requires
        config.chunk_size > 0,
    ensures
        bytes_of(r) == phase_packet(data@, phase, config.tail_window as int, config.ceiling as int),
{
    let len = data.len();
    let start64 = phase_start(len as u64, phase, config.tail_window);
    assert(start64 <= len);
    let start = start64 as usize;
    assert(start as int == start_of(data@.len() as int, phase, config.tail_window as int));
    let ghost s = data@.skip(start as int);
    let ghost cap = config.ceiling as int;
    let mut scanner = PacketScanner::new(config.ceiling);
    let mut pos = start;
    assert(data@.subrange(start as int, pos as int) =~= Seq::<u8>::empty());
    proof {
        lemma_delims_nonzero();
        no_packet_without_delimiter(Seq::<u8>::empty(), cap);
    }
    while pos < len
        invariant
            start <= pos <= len,
            len == data@.len(),
            s == data@.skip(start as int),
            start as int == start_of(data@.len() as int, phase, config.tail_window as int),
            cap == config.ceiling,
            config.chunk_size > 0,
            scanner.wf(),
            scanner.pending(),
            scanner.cap() == cap,
            scanner.stream() == data@.subrange(start as int, pos as int),
            packet_in(scanner.stream(), cap) is None,
        decreases len - pos,
    {
        let end = if len - pos > config.chunk_size {
            pos + config.chunk_size
        } else {
            len
        };
        let chunk = slice_subrange(data, pos, end);
        let ghost before = scanner.stream();
        let status = scanner.feed(chunk);
        proof {
            assert(before + chunk@ =~= s.take(end - start));
            lemma_packet_in_take(s, end - start, cap);
        }
        match status {
            ScanStatus::Found(p) => {
                return Some(p);
            },
            ScanStatus::CapReached => {
                return None;
            },
            ScanStatus::Pending => {
                pos = end;
            },
        }
    }
    proof {
        assert(s.take(len - start) =~= s);
        assert(data@.subrange(start as int, len as int) =~= s);
    }
    None
}

/// What a lookup does after a phase: stop with the packet, run the next
/// phase, or give up.
#[derive(Debug, PartialEq, Eq)]
pub enum LookupStep {
    Scan(Phase),
    Found(Vec<u8>),
    NotFound,
}

/// The two-phase policy. A lookup starts with [`Phase::Tail`]; a packet ends
/// it; a tail phase without one is followed by a full scan; a full scan
/// without one ends it with nothing found.
pub fn next_step(phase: Phase, result: Option<Vec<u8>>) -> (r: LookupStep)
    ensures
        match result {
            Some(p) => r == LookupStep::Found(p),
            None => match phase {
                Phase::Tail => r == LookupStep::Scan(Phase::Full),
                Phase::Full => r is NotFound,
            },
        },
{
    match result {
        Some(p) => LookupStep::Found(p),
        None => match phase {
            Phase::Tail => LookupStep::Scan(Phase::Full),
            Phase::Full => LookupStep::NotFound,
        },
    }
}

/// The packet of a two-phase lookup in `data`: the tail phase's if it finds
/// one, else the full scan's.
pub open spec fn located(data: Seq<u8>, window: int, cap: int) -> Option<Seq<u8>> {
    match phase_packet(data, Phase::Tail, window, cap) {
        Some(p) => Some(p),
        None => phase_packet(data, Phase::Full, window, cap),
    }
}

/// Looks for the packet in `data` in two phases, tail first.
pub fn locate_packet(data: &[u8], config: &ScanConfig) -> (r: Option<Vec<u8>>)
    requires
        config.chunk_size > 0,
    ensures
        bytes_of(r) == located(data@, config.tail_window as int, config.ceiling as int),
{
    let tail = scan_slice(data, Phase::Tail, config);
    match next_step(Phase::Tail, tail) {
        LookupStep::Found(p) => Some(p),
        LookupStep::NotFound => None,
        LookupStep::Scan(phase) => {
            let full = scan_slice(data, phase, config);
            match next_step(phase, full) {
                LookupStep::Found(p) => Some(p),
                _ => None,
            }
        },
    }
}

/// A stream that never holds the opening delimiter has no packet, whatever
/// the ceiling. So, by the contract of [`PacketScanner::feed`], a scanner
/// offered more than `cap` such bytes answers `CapReached` after examining
/// at most `cap` of them.
pub proof fn no_packet_without_delimiter(s: Seq<u8>, cap: int)
    requires
        !occurs(s, open_delim()),
    ensures
        packet_in(s, cap) is None,
{
    reveal(packet_in);
    if exists|e1: int, e2: int| #[trigger] packet_span(s, e1, e2) && e2 <= cap {
        let (e1, e2) = choose|e1: int, e2: int| #[trigger] packet_span(s, e1, e2) && e2 <= cap;
        lemma_delims_nonzero();
        let i = e1 - 10;
        assert(s.subrange(i, i + open_delim().len()) == open_delim());
    }
}

/// When the tail window holds no opening delimiter but the whole data has a
/// packet, the tail phase finds nothing, and the lookup returns the full
/// scan's packet.
pub proof fn two_phase_fallback(data: Seq<u8>, window: int, cap: int)
    requires
        !occurs(data.skip(start_of(data.len() as int, Phase::Tail, window)), open_delim()),
        packet_in(data, cap) is Some,
    ensures
        phase_packet(data, Phase::Tail, window, cap) is None,
        phase_packet(data, Phase::Full, window, cap) == packet_in(data, cap),
        located(data, window, cap) == packet_in(data, cap),
{
    no_packet_without_delimiter(data.skip(start_of(data.len() as int, Phase::Tail, window)), cap);
    assert(data.skip(0) =~= data);
}

} // verus!
