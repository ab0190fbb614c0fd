//! The segmented buffer: a ring of fixed-size segments addressed by
//! positions, holding the bytes written and not yet read.

use vstd::prelude::*;
use vstd::pervasive::VecAdditionalExecFns;

verus! {

/// The address of one byte in the buffer: a segment of the ring and an offset
/// inside it. Positions are ordered by segment first, then by offset.
#[derive(Debug, Clone, Copy, PartialEq, Eq, Structural)]
pub struct Position {
    pub segment: usize,
    pub offset: usize,
}

impl Position {
    /// The lexicographic order on (segment, offset).
    pub open spec fn precedes(self, other: Position) -> bool {
        self.segment < other.segment || (self.segment == other.segment && self.offset < other.offset)
    }

    pub open spec fn order(self, other: Position) -> core::cmp::Ordering {
        if self.precedes(other) {
            core::cmp::Ordering::Less
        } else if self == other {
            core::cmp::Ordering::Equal
        } else {
            core::cmp::Ordering::Greater
        }
    }
}

impl Default for Position {
    fn default() -> (r: Position)
        ensures
            r.segment == 0,
            r.offset == 0,
    {
        Position { segment: 0, offset: 0 }
    }
}

impl PartialOrd for Position {
    fn partial_cmp(&self, other: &Position) -> (r: Option<core::cmp::Ordering>)
        ensures
            r == Some(self.order(*other)),
    {
        if self.segment < other.segment || (self.segment == other.segment && self.offset < other.offset) {
            Some(core::cmp::Ordering::Less)
        } else if self.segment == other.segment && self.offset == other.offset {
            Some(core::cmp::Ordering::Equal)
        } else {
            Some(core::cmp::Ordering::Greater)
        }
    }
}

impl vstd::std_specs::cmp::PartialOrdSpecImpl for Position {
    open spec fn obeys_partial_cmp_spec() -> bool {
        true
    }

    open spec fn partial_cmp_spec(&self, other: &Position) -> Option<core::cmp::Ordering> {
        Some(self.order(*other))
    }
}


/// The sizes a buffer is made with: how many segments the ring has room for
/// before it reallocates, and how many bytes each segment holds.
pub struct Options {
    pub ring_capacity: usize,
    pub buffer_size: usize,
}

impl Options {
    pub const DEFAULT_INITIAL_RING_CAPACITY: usize = 64;

    pub const INITIAL_BUFFER_SIZE: usize = 4;
}

impl Default for Options {
    fn default() -> (r: Options)
        ensures
            r.ring_capacity == Options::DEFAULT_INITIAL_RING_CAPACITY,
            r.buffer_size == Options::INITIAL_BUFFER_SIZE,
    {
        Options {
            ring_capacity: Options::DEFAULT_INITIAL_RING_CAPACITY,
            buffer_size: Options::INITIAL_BUFFER_SIZE,
        }
    }
}

/// Successive segments start a whole segment apart.
proof fn lemma_next_segment(s: int, size: int)
    ensures
        (s + 1) * size == s * size + size,
{
    assert((s + 1) * size == s * size + size) by (nonlinear_arith);
}

/// A byte of an earlier segment comes before every byte of a later one.
proof fn lemma_earlier_segment(a: int, b: int, o: int, size: int)
    requires
        0 <= a < b,
        0 <= o < size,
    ensures
        a * size + o < b * size,
{
    assert((a + 1) * size <= b * size) by (nonlinear_arith)
        requires
            a + 1 <= b,
            0 < size,
    ;
    lemma_next_segment(a, size);
}

/// A ring of fixed-size segments holding the bytes of a stream that have been
/// written and not yet read. Bytes are appended at the write cursor and read
/// at the read cursor; a segment that has been read through is recycled for
/// new writes once the next write begins.
pub struct Buffer {
    ring: Vec<Vec<u8>>,
    read_cursor: Position,
    write_cursor: Position,
    segment_size: usize,
    /// Every byte held since the ring was last recycled, in stream order.
    held: Ghost<Seq<u8>>,
}

impl Buffer {
    /// Where `p` falls in the bytes held.
    pub closed spec fn index_of(&self, p: Position) -> int {
        p.segment * self.segment_size + p.offset
    }

    /// `p` addresses a byte of the ring, or the end of what was written, and
    /// at the start of a segment rather than past the end of a full one.
    pub closed spec fn in_ring(&self, p: Position) -> bool {
        &&& p.segment <= self.write_cursor.segment
        &&& p.segment < self.write_cursor.segment ==> p.offset < self.segment_size
        &&& p.segment == self.write_cursor.segment ==> p.offset <= self.write_cursor.offset
    }

    pub closed spec fn wf(&self) -> bool {
        &&& self.segment_size > 0
        &&& self.write_cursor.segment < self.ring@.len()
        &&& self.write_cursor.offset <= self.segment_size
        &&& forall|s: int|
            0 <= s < self.write_cursor.segment ==> (#[trigger] self.ring@[s])@.len()
                == self.segment_size
        &&& self.ring@[self.write_cursor.segment as int]@.len() == self.write_cursor.offset
        &&& forall|s: int|
            self.write_cursor.segment < s < self.ring@.len() ==> (#[trigger] self.ring@[s])@.len()
                == 0
        &&& self.held@.len() == self.index_of(self.write_cursor)
        &&& forall|s: int, o: int|
            0 <= s <= self.write_cursor.segment && 0 <= o < self.ring@[s]@.len() ==> #[trigger] self.ring@[s]@[o]
                == self.held@[s * self.segment_size + o]
        &&& self.in_ring(self.read_cursor)
        &&& self.index_of(self.read_cursor) <= self.index_of(self.write_cursor)
    }

    /// The bytes written and not yet read, in order.
    pub closed spec fn view(&self) -> Seq<u8> {
        self.held@.subrange(self.index_of(self.read_cursor), self.index_of(self.write_cursor))
    }

    /// The number of bytes that the segments hold each.
    pub closed spec fn segment_capacity(&self) -> nat {
        self.segment_size as nat
    }

    /// `p` is a place in the unread bytes, or their end.
    pub closed spec fn is_cursor(&self, p: Position) -> bool {
        &&& self.in_ring(p)
        &&& self.index_of(self.read_cursor) <= self.index_of(p)
        &&& self.index_of(p) <= self.index_of(self.write_cursor)
    }

    /// How many unread bytes come before the cursor `p`.
    pub closed spec fn spot(&self, p: Position) -> int {
        self.index_of(p) - self.index_of(self.read_cursor)
    }

    pub fn with_options(opts: &Options) -> (r: Buffer)
        requires
            opts.buffer_size > 0,
        ensures
            r.wf(),
            r@ == Seq::<u8>::empty(),
            r.segment_capacity() == opts.buffer_size,
    {
        let mut ring: Vec<Vec<u8>> = Vec::with_capacity(opts.ring_capacity);
        ring.push(Vec::with_capacity(opts.buffer_size));
        let r = Buffer {
            ring: ring,
            read_cursor: Position::default(),
            write_cursor: Position::default(),
            segment_size: opts.buffer_size,
            held: Ghost(Seq::empty()),
        };
        assert(r.held@ =~= r@);
        r
    }

    /// Whether any written byte is still unread.
    pub fn has_unread(&self) -> (r: bool)
        requires
            self.wf(),
        ensures
            r == (self@.len() > 0),
    {
        let r = !(self.read_cursor.segment == self.write_cursor.segment
            && self.read_cursor.offset == self.write_cursor.offset);
        proof {
            if self.read_cursor.segment < self.write_cursor.segment {
                lemma_earlier_segment(
                    self.read_cursor.segment as int,
                    self.write_cursor.segment as int,
                    self.read_cursor.offset as int,
                    self.segment_size as int,
                );
            }
        }
        r
    }

    /// The cursor at the first unread byte.
    pub fn start(&self) -> (p: Position)
        requires
            self.wf(),
        ensures
            self.is_cursor(p),
            self.spot(p) == 0,
    {
        self.read_cursor
    }

    /// A cursor stands among the unread bytes or at their end.
    pub proof fn lemma_cursor(&self, p: Position)
        requires
            self.wf(),
            self.is_cursor(p),
        ensures
            0 <= self.spot(p) <= self@.len(),
    {
    }

    /// Whether the cursor `p` stands past every unread byte.
    pub fn at_end(&self, p: Position) -> (r: bool)
        requires
            self.wf(),
            self.is_cursor(p),
        ensures
            r == (self.spot(p) == self@.len()),
            0 <= self.spot(p) <= self@.len(),
    {
        proof {
            if p.segment < self.write_cursor.segment {
                lemma_earlier_segment(
                    p.segment as int,
                    self.write_cursor.segment as int,
                    p.offset as int,
                    self.segment_size as int,
                );
            }
        }
        p.segment == self.write_cursor.segment && p.offset == self.write_cursor.offset
    }

    /// The unread byte at the cursor `p`.
    pub fn byte_at(&self, p: Position) -> (r: u8)
        requires
            self.wf(),
            self.is_cursor(p),
            self.spot(p) < self@.len(),
        ensures
            r == self@[self.spot(p)],
    {
        proof {
            if p.segment < self.write_cursor.segment {
                assert(self.ring@[p.segment as int]@.len() == self.segment_size);
            }
        }
        let r = self.ring[p.segment][p.offset];
        assert(self.ring@[p.segment as int]@[p.offset as int] == self.held@[self.index_of(p)]);
        r
    }

    /// The cursor one byte past `p`.
    pub fn after(&self, p: Position) -> (r: Position)
        requires
            self.wf(),
            self.is_cursor(p),
            self.spot(p) < self@.len(),
        ensures
            self.is_cursor(r),
            self.spot(r) == self.spot(p) + 1,
    {
        proof {
            if p.segment < self.write_cursor.segment {
                lemma_next_segment(p.segment as int, self.segment_size as int);
            }
        }
        if p.offset + 1 == self.segment_size && p.segment < self.write_cursor.segment {
            Position { segment: p.segment + 1, offset: 0 }
        } else {
            Position { segment: p.segment, offset: p.offset + 1 }
        }
    }

    /// A copy of the unread bytes from the cursor `from` up to the cursor
    /// `to`, which may run over several segments.
    pub fn copy_span(&self, from: Position, to: Position) -> (r: Vec<u8>)
        requires
            self.wf(),
            self.is_cursor(from),
            self.is_cursor(to),
            self.spot(from) <= self.spot(to),
        ensures
            r@ == self@.subrange(self.spot(from), self.spot(to)),
    {
        let mut out: Vec<u8> = Vec::new();
        let mut q = from;
        while !(q.segment == to.segment && q.offset == to.offset)
            invariant
                self.wf(),
                self.is_cursor(from),
                self.is_cursor(to),
                self.is_cursor(q),
                self.spot(from) <= self.spot(q) <= self.spot(to),
                out@ == self@.subrange(self.spot(from), self.spot(q)),
            decreases self.spot(to) - self.spot(q),
        {
            proof {
                if q.segment < to.segment {
                    lemma_earlier_segment(
                        q.segment as int,
                        to.segment as int,
                        q.offset as int,
                        self.segment_size as int,
                    );
                } else if to.segment < q.segment {
                    lemma_earlier_segment(
                        to.segment as int,
                        q.segment as int,
                        to.offset as int,
                        self.segment_size as int,
                    );
                }
            }
            let b = self.byte_at(q);
            out.push(b);
            let ghost before = q;
            q = self.after(q);
            assert(out@ =~= self@.subrange(self.spot(from), self.spot(before)).push(self@[self.spot(before)]));
            assert(out@ =~= self@.subrange(self.spot(from), self.spot(q)));
        }
        out
    }

    /// Marks the unread bytes before the cursor `p` as read.
    pub fn consume_to(&mut self, p: Position)
        requires
            old(self).wf(),
            old(self).is_cursor(p),
        ensures
            final(self).wf(),
            final(self)@ == old(self)@.skip(old(self).spot(p)),
            final(self).segment_capacity() == old(self).segment_capacity(),
    {
        self.read_cursor = p;
        assert(self@ =~= old(self)@.skip(old(self).spot(p)));
    }

    /// Moves the segments that have been read through to the back of the
    /// ring, emptied, so that later writes reuse their storage.
    fn recycle(&mut self)
        requires
            old(self).wf(),
        ensures
            final(self).wf(),
            final(self)@ == old(self)@,
            final(self).read_cursor.segment == 0,
            final(self).segment_size == old(self).segment_size,
    {
        while self.read_cursor.segment > 0
            invariant
                self.wf(),
                self@ == old(self)@,
                self.segment_size == old(self).segment_size,
            decreases self.read_cursor.segment,
        {
            let ghost pre = *self;
            let size = self.segment_size;
            let mut first = self.ring.remove(0);
            first.clear();
            self.ring.push(first);
            self.read_cursor.segment = self.read_cursor.segment - 1;
            self.write_cursor.segment = self.write_cursor.segment - 1;
            proof {
                let ws = pre.write_cursor.segment as int;
                lemma_next_segment(ws - 1, size as int);
                lemma_next_segment(pre.read_cursor.segment - 1, size as int);
                self.held = Ghost(pre.held@.skip(size as int));
                assert forall|s: int, o: int|
                    0 <= s <= self.write_cursor.segment && 0 <= o < self.ring@[s]@.len() implies #[trigger] self.ring@[s]@[o]
                    == self.held@[s * self.segment_size + o] by {
                    assert(self.ring@[s] == pre.ring@[s + 1]);
                    lemma_next_segment(s, size as int);
                    if s < self.write_cursor.segment {
                        lemma_earlier_segment(s, self.write_cursor.segment as int, o, size as int);
                    }
                    assert(pre.ring@[s + 1]@[o] == pre.held@[(s + 1) * size + o]);
                }
                assert forall|s: int| 0 <= s < self.write_cursor.segment implies (#[trigger] self.ring@[s])@.len()
                    == self.segment_size by {
                    assert(self.ring@[s] == pre.ring@[s + 1]);
                }
                assert forall|s: int|
                    self.write_cursor.segment < s < self.ring@.len() implies (#[trigger] self.ring@[s])@.len()
                    == 0 by {
                    if s + 1 < pre.ring@.len() {
                        assert(self.ring@[s] == pre.ring@[s + 1]);
                    }
                }
                assert(self@ =~= pre@);
            }
        }
    }

    /// Appends one byte at the write cursor, moving on to the next segment,
    /// and allocating it if need be, when the current one is full.
    fn push_byte(&mut self, b: u8)
        requires
            old(self).wf(),
        ensures
            final(self).wf(),
            final(self)@ == old(self)@.push(b),
            final(self).segment_size == old(self).segment_size,
    {
        let ghost pre = *self;
        let size = self.segment_size;
        if self.write_cursor.offset == size {
            if self.write_cursor.segment == self.ring.len() - 1 {
                self.ring.push(Vec::with_capacity(size));
            }
            let caught_up = self.read_cursor.segment == self.write_cursor.segment
                && self.read_cursor.offset == size;
            self.write_cursor = Position { segment: self.write_cursor.segment + 1, offset: 0 };
            if caught_up {
                self.read_cursor = self.write_cursor;
            }
            proof {
                lemma_next_segment(pre.write_cursor.segment as int, size as int);
                if !caught_up {
                    assert(self.read_cursor.segment < self.write_cursor.segment);
                    assert(self.read_cursor.offset < size) by {
                        if self.read_cursor.segment == pre.write_cursor.segment {
                            assert(self.read_cursor.offset <= size);
                            assert(self.read_cursor.offset != size);
                        }
                    }
                }
                assert forall|s: int| 0 <= s < self.write_cursor.segment implies (#[trigger] self.ring@[s])@.len()
                    == self.segment_size by {
                    if s < pre.write_cursor.segment {
                        assert(pre.ring@[s]@.len() == size);
                    }
                }
            }
        }
        let ghost mid = *self;
        let ws = self.write_cursor.segment;
        let mut seg: Vec<u8> = Vec::new();
        self.ring.set_and_swap(ws, &mut seg);
        seg.push(b);
        self.ring.set_and_swap(ws, &mut seg);
        self.write_cursor.offset = self.write_cursor.offset + 1;
        proof {
            self.held = Ghost(mid.held@.push(b));
            assert forall|s: int, o: int|
                0 <= s <= self.write_cursor.segment && 0 <= o < self.ring@[s]@.len() implies #[trigger] self.ring@[s]@[o]
                == self.held@[s * self.segment_size + o] by {
                if s < ws {
                    lemma_earlier_segment(s, ws as int, o, size as int);
                    assert(self.ring@[s] == mid.ring@[s]);
                    assert(mid.ring@[s]@[o] == mid.held@[s * size + o]);
                } else if o < mid.write_cursor.offset {
                    assert(mid.ring@[s]@[o] == mid.held@[s * size + o]);
                }
            }
            assert forall|s: int| 0 <= s < self.write_cursor.segment implies (#[trigger] self.ring@[s])@.len()
                == self.segment_size by {
                assert(self.ring@[s] == mid.ring@[s]);
            }
            assert forall|s: int|
                self.write_cursor.segment < s < self.ring@.len() implies (#[trigger] self.ring@[s])@.len()
                == 0 by {
                assert(self.ring@[s] == mid.ring@[s]);
            }
            assert(self@ =~= pre@.push(b));
        }
    }

    /// Appends `bytes` after the bytes already written, first recycling the
    /// segments that have been read through.
    pub fn write(&mut self, bytes: &[u8])
        requires
            old(self).wf(),
        ensures
            final(self).wf(),
            final(self)@ == old(self)@ + bytes@,
            final(self).segment_capacity() == old(self).segment_capacity(),
    {
        self.recycle();
        let mut i: usize = 0;
        while i < bytes.len()
            invariant
                self.wf(),
                i <= bytes@.len(),
                self@ == old(self)@ + bytes@.take(i as int),
                self.segment_size == old(self).segment_size,
            decreases bytes@.len() - i,
        {
            self.push_byte(bytes[i]);
            i = i + 1;
            assert(self@ =~= old(self)@ + bytes@.take(i as int));
        }
        assert(bytes@.take(i as int) =~= bytes@);
    }
}

impl Default for Buffer {
    fn default() -> (r: Buffer)
        ensures
            r.wf(),
            r@ == Seq::<u8>::empty(),
            r.segment_capacity() == Options::INITIAL_BUFFER_SIZE,
    {
        Self::with_options(&Options::default())
    }
}

} // verus!
