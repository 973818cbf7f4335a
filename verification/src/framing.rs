use vstd::prelude::*;

verus! {

/// Size of the receive buffer of a message reader.
pub const BUFFER_SIZE: usize = 50;

/// The byte that ends every message on the wire.
pub const NEWLINE: u8 = 10;

/// `s` holds no newline.
pub open spec fn no_newline(s: Seq<u8>) -> bool {
    forall|k: int| 0 <= k < s.len() ==> s[k] != NEWLINE
}

/// `k` is the position of the first newline of `s`.
pub open spec fn is_first_newline(s: Seq<u8>, k: int) -> bool {
    &&& 0 <= k < s.len()
    &&& s[k] == NEWLINE
    &&& no_newline(s.subrange(0, k))
}

/// The bytes of a buffer after `copy_within(from.., 0)`: the tail starting at `from` moves
/// to the front, and the last `from` bytes keep their old values.
pub open spec fn shifted_down(s: Seq<u8>, from: int) -> Seq<u8> {
    s.subrange(from, s.len() as int) + s.subrange(s.len() - from, s.len() as int)
}

/// The bytes a writer puts on the wire for one serialized message: the message and a
/// newline.
pub open spec fn spec_frame(payload: Seq<u8>) -> Seq<u8> {
    payload.push(NEWLINE)
}

/// The receive side of the newline-framed protocol: a fixed buffer of `BUFFER_SIZE`
/// bytes, of which the first `loaded` were received and not yet consumed.
///
/// Reading appends to the loaded part; a message ends at the first newline found
/// anywhere in the buffer; consuming a message moves the rest of the buffer to the front.
pub struct FrameBuffer {
    buffer: Vec<u8>,
    loaded: usize,
}

/// What a reader does after a read from the stream.
pub enum ReadStep {
    /// The stream is closed (the read returned no bytes).
    Closed,
    /// No newline in the buffer yet: read again.
    NeedMore,
    /// A message ends at `end`; `payload` holds the buffer's bytes before it.
    Frame { end: usize, payload: Vec<u8> },
}

impl View for FrameBuffer {
    type V = (Seq<u8>, nat);

    closed spec fn view(&self) -> (Seq<u8>, nat) {
        (self.buffer@, self.loaded as nat)
    }
}

impl FrameBuffer {
    /// The buffer has its fixed size and the loaded part fits in it.
    pub open spec fn wf(&self) -> bool {
        &&& self@.0.len() == BUFFER_SIZE
        &&& self@.1 <= BUFFER_SIZE
    }

    /// A fresh buffer: all zero, nothing loaded.
    pub fn new() -> (r: FrameBuffer)
        ensures
            r.wf(),
            r@.0 == Seq::new(BUFFER_SIZE as nat, |i: int| 0u8),
            r@.1 == 0,
    {
        let buffer = vec![0u8; BUFFER_SIZE];
        assert(buffer@ =~= Seq::new(BUFFER_SIZE as nat, |i: int| 0u8));
        FrameBuffer { buffer, loaded: 0 }
    }

    /// Number of bytes received and not yet consumed.
    pub fn loaded(&self) -> (r: usize)
        ensures
            r == self@.1,
    {
        self.loaded
    }

    /// Room left for the next read: the part of the buffer after the loaded bytes.
    pub fn free_space(&self) -> (r: usize)
        requires
            self.wf(),
        ensures
            r == BUFFER_SIZE - self@.1,
    {
        BUFFER_SIZE - self.loaded
    }

    /// Position of the first newline anywhere in the buffer, loaded or not.
    pub fn find_newline(&self) -> (r: Option<usize>)
        requires
            self.wf(),
        ensures
            r matches Some(k) ==> is_first_newline(self@.0, k as int),
            r is None ==> no_newline(self@.0),
    {
        let mut k: usize = 0;
        while k < self.buffer.len()
            invariant
                k <= self.buffer@.len(),
                no_newline(self.buffer@.subrange(0, k as int)),
            decreases self.buffer@.len() - k,
        {
            if self.buffer[k] == NEWLINE {
                return Some(k);
            }
            assert(self.buffer@.subrange(0, k + 1) =~= self.buffer@.subrange(0, k as int).push(self.buffer@[k as int]));
            k += 1;
        }
        assert(self.buffer@.subrange(0, k as int) =~= self.buffer@);
        None
    }

    /// Stores the bytes of a read right after the loaded ones.
    pub fn fill(&mut self, bytes: &[u8])
        requires
            old(self).wf(),
            bytes@.len() <= BUFFER_SIZE - old(self)@.1,
        ensures
            final(self).wf(),
            final(self)@.1 == old(self)@.1 + bytes@.len(),
            final(self)@.0 == old(self)@.0.subrange(0, old(self)@.1 as int) + bytes@
                + old(self)@.0.subrange((old(self)@.1 + bytes@.len()) as int, BUFFER_SIZE as int),
    {
        let ghost b0 = self.buffer@;
        let start = self.loaded;
        let mut i: usize = 0;
        while i < bytes.len()
            invariant
                start == old(self)@.1,
                self.loaded == start,
                b0.len() == BUFFER_SIZE,
                start + bytes@.len() <= BUFFER_SIZE,
                i <= bytes@.len(),
                self.buffer@.len() == BUFFER_SIZE,
                b0 == old(self)@.0,
                self.buffer@ == b0.subrange(0, start as int) + bytes@.subrange(0, i as int) + b0.subrange(
                    start + i,
                    BUFFER_SIZE as int,
                ),
            decreases bytes@.len() - i,
        {
            let ghost prev = self.buffer@;
            self.buffer.set(start + i, bytes[i]);
            assert(self.buffer@ =~= b0.subrange(0, start as int) + bytes@.subrange(0, i + 1)
                + b0.subrange(start + i + 1, BUFFER_SIZE as int));
            i += 1;
        }
        assert(bytes@.subrange(0, i as int) =~= bytes@);
        self.loaded = start + bytes.len();
    }

    /// The bytes in front of position `end`: the payload of the message that ends there.
    pub fn payload(&self, end: usize) -> (r: Vec<u8>)
        requires
            self.wf(),
            end <= BUFFER_SIZE,
        ensures
            r@ == self@.0.subrange(0, end as int),
    {
        let mut out: Vec<u8> = Vec::new();
        let mut i: usize = 0;
        while i < end
            invariant
                i <= end <= BUFFER_SIZE,
                self.buffer@.len() == BUFFER_SIZE,
                out@ == self.buffer@.subrange(0, i as int),
            decreases end - i,
        {
            out.push(self.buffer[i]);
            assert(out@ =~= self.buffer@.subrange(0, i + 1));
            i += 1;
        }
        out
    }

    /// Drops the message that ends at `end`: the bytes after the newline move to the
    /// front of the buffer and `end + 1` bytes leave the loaded count. The newline must lie
    /// within the loaded bytes.
    pub fn consume(&mut self, end: usize)
        requires
            old(self).wf(),
            end < BUFFER_SIZE,
            end + 1 <= old(self)@.1,
        ensures
            final(self).wf(),
            final(self)@.0 == shifted_down(old(self)@.0, end + 1),
            final(self)@.1 == old(self)@.1 - (end + 1),
    {
        let ghost b0 = self.buffer@;
        let from = end + 1;
        let n = BUFFER_SIZE - from;
        let mut k: usize = 0;
        while k < n
            invariant
                from == end + 1,
                n == BUFFER_SIZE - from,
                k <= n,
                b0 == old(self)@.0,
                self.loaded == old(self)@.1,
                b0.len() == BUFFER_SIZE,
                self.buffer@.len() == BUFFER_SIZE,
                forall|i: int| 0 <= i < k ==> self.buffer@[i] == b0[i + from],
                forall|i: int| k <= i < BUFFER_SIZE ==> self.buffer@[i] == b0[i],
            decreases n - k,
        {
            let b = self.buffer[k + from];
            self.buffer.set(k, b);
            k += 1;
        }
        assert(self.buffer@ =~= shifted_down(b0, from as int));
        self.loaded = self.loaded - from;
    }

    /// The step a reader takes after a read returned `bytes`: an empty read means the
    /// stream is closed; otherwise the bytes are stored and, if the buffer now holds a
    /// newline, the message before the first newline is handed out. The buffer itself is
    /// only changed by storing the bytes: the message stays until `consume`.
    pub fn after_read(&mut self, bytes: &[u8]) -> (r: ReadStep)
        requires
            old(self).wf(),
            bytes@.len() <= BUFFER_SIZE - old(self)@.1,
        ensures
            final(self).wf(),
            bytes@.len() == 0 ==> r is Closed && final(self)@ == old(self)@,
            bytes@.len() > 0 ==> {
                &&& final(self)@.1 == old(self)@.1 + bytes@.len()
                &&& final(self)@.0 == old(self)@.0.subrange(0, old(self)@.1 as int) + bytes@
                    + old(self)@.0.subrange((old(self)@.1 + bytes@.len()) as int, BUFFER_SIZE as int)
                &&& match r {
                    ReadStep::Closed => false,
                    ReadStep::NeedMore => no_newline(final(self)@.0),
                    ReadStep::Frame { end, payload } => is_first_newline(final(self)@.0, end as int)
                        && payload@ == final(self)@.0.subrange(0, end as int),
                }
            },
    {
        if bytes.len() == 0 {
            return ReadStep::Closed;
        }
        self.fill(bytes);
        match self.find_newline() {
            Some(end) => {
                let payload = self.payload(end);
                ReadStep::Frame { end, payload }
            },
            None => ReadStep::NeedMore,
        }
    }
}

/// The bytes to write for one serialized message: the message followed by a newline.
pub fn frame_message(payload: &[u8]) -> (r: Vec<u8>)
    ensures
        r@ == spec_frame(payload@),
{
    let mut out: Vec<u8> = Vec::new();
    let mut i: usize = 0;
    while i < payload.len()
        invariant
            i <= payload@.len(),
            out@ == payload@.subrange(0, i as int),
        decreases payload@.len() - i,
    {
        out.push(payload[i]);
        assert(out@ =~= payload@.subrange(0, i + 1));
        i += 1;
    }
    assert(payload@.subrange(0, i as int) =~= payload@);
    out.push(NEWLINE);
    out
}

/// What a reader with nothing loaded and no newline in its buffer receives when a writer
/// sends one framed message that fits the buffer: the message ends right after the
/// payload, and the bytes in front of it are exactly the payload.
pub proof fn law_frame_round_trip(s: Seq<u8>, payload: Seq<u8>)
    requires
        s.len() == BUFFER_SIZE,
        no_newline(s),
        no_newline(payload),
        payload.len() + 1 <= BUFFER_SIZE,
    ensures
        ({
            let t = s.subrange(0, 0) + spec_frame(payload) + s.subrange(
                spec_frame(payload).len() as int,
                BUFFER_SIZE as int,
            );
            &&& is_first_newline(t, payload.len() as int)
            &&& t.subrange(0, payload.len() as int) == payload
        }),
{
    let t = s.subrange(0, 0) + spec_frame(payload) + s.subrange(
        spec_frame(payload).len() as int,
        BUFFER_SIZE as int,
    );
    assert(t.subrange(0, payload.len() as int) =~= payload);
    assert(t[payload.len() as int] == NEWLINE);
}

/// Consuming a message keeps the bytes received after its newline, in order, at the
/// front of the buffer.
pub proof fn law_consume_keeps_rest(s: Seq<u8>, loaded: int, end: int)
    requires
        s.len() == BUFFER_SIZE,
        0 <= end,
        end + 1 <= loaded <= BUFFER_SIZE,
    ensures
        shifted_down(s, end + 1).subrange(0, loaded - (end + 1)) == s.subrange(end + 1, loaded),
{
    assert(shifted_down(s, end + 1).subrange(0, loaded - (end + 1)) =~= s.subrange(end + 1, loaded));
}

/// A frame is the whole payload, of any length, followed by exactly one newline.
pub proof fn law_frame_is_payload_then_newline(payload: Seq<u8>)
    ensures
        spec_frame(payload).len() == payload.len() + 1,
        forall|i: int| 0 <= i < payload.len() ==> #[trigger] spec_frame(payload)[i] == payload[i],
        spec_frame(payload)[payload.len() as int] == NEWLINE,
{
}

/// Consuming the first `from` bytes of the buffer moves every later byte `from` places to
/// the front and writes nothing else: the last `from` places keep their old bytes, so the
/// consumed message appears nowhere in the buffer afterwards unless it was there already.
pub proof fn law_consume_moves_only_the_rest(s: Seq<u8>, from: int)
    requires
        s.len() == BUFFER_SIZE,
        0 < from <= BUFFER_SIZE,
    ensures
        shifted_down(s, from).len() == BUFFER_SIZE,
        forall|i: int| 0 <= i < BUFFER_SIZE - from ==> #[trigger] shifted_down(s, from)[i] == s[i + from],
        forall|i: int| BUFFER_SIZE - from <= i < BUFFER_SIZE ==> #[trigger] shifted_down(s, from)[i] == s[i],
{
}

/// A buffer that holds no newline after its loaded bytes, nor in its last `end + 1`
/// bytes (the places that consuming leaves as they were), holds none after its loaded
/// bytes once the message ending at `end` is consumed: a later partial read is never
/// mistaken for a message because of an old newline.
pub proof fn law_consume_leaves_no_stale_newline(s: Seq<u8>, loaded: int, end: int)
    requires
        s.len() == BUFFER_SIZE,
        0 <= end,
        end + 1 <= loaded <= BUFFER_SIZE,
        no_newline(s.subrange(loaded, BUFFER_SIZE as int)),
        no_newline(s.subrange(BUFFER_SIZE - (end + 1), BUFFER_SIZE as int)),
    ensures
        no_newline(shifted_down(s, end + 1).subrange(loaded - (end + 1), BUFFER_SIZE as int)),
{
    let from = end + 1;
    let t = shifted_down(s, from);
    let u = t.subrange(loaded - from, BUFFER_SIZE as int);
    assert forall|k: int| 0 <= k < u.len() implies u[k] != NEWLINE by {
        let i = loaded - from + k;
        assert(u[k] == t[i]);
        if i < BUFFER_SIZE - from {
            assert(t[i] == s[i + from]);
            assert(s.subrange(loaded, BUFFER_SIZE as int)[i + from - loaded] == s[i + from]);
        } else {
            assert(t[i] == s[i]);
            assert(s.subrange(BUFFER_SIZE - from, BUFFER_SIZE as int)[i - (BUFFER_SIZE - from)] == s[i]);
        }
    }
}

} // verus!
