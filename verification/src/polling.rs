use vstd::prelude::*;

verus! {

/// How long a client may stay silent before it is disconnected, in nanoseconds (3 s).
pub const TIMEOUT_NANOS: u64 = 3_000_000_000;

/// Nanoseconds in a millisecond.
pub const NANOS_PER_MILLI: u64 = 1_000_000;

/// Time left before a client that has been silent for `elapsed_nanos` times out: the
/// timeout minus the silence, or zero once the timeout has passed.
pub fn until_timeout(elapsed_nanos: u64) -> (r: u64)
    ensures
        r == if elapsed_nanos >= TIMEOUT_NANOS { 0 } else { TIMEOUT_NANOS - elapsed_nanos },
{
    if elapsed_nanos >= TIMEOUT_NANOS {
        0
    } else {
        TIMEOUT_NANOS - elapsed_nanos
    }
}

/// The wait, in whole milliseconds, before the next client may time out: the least of the
/// clients' remaining times, or `-1` (wait without limit) when there are no clients.
pub fn poll_timeout(remaining_nanos: &[u64]) -> (r: i32)
    requires
        forall|i: int| 0 <= i < remaining_nanos@.len() ==> #[trigger] remaining_nanos@[i] <= TIMEOUT_NANOS,
    ensures
        remaining_nanos@.len() == 0 ==> r == -1,
        remaining_nanos@.len() > 0 ==> {
            &&& forall|i: int|
                0 <= i < remaining_nanos@.len() ==> r <= #[trigger] remaining_nanos@[i] / NANOS_PER_MILLI
            &&& exists|i: int|
                0 <= i < remaining_nanos@.len() && r == #[trigger] remaining_nanos@[i] / NANOS_PER_MILLI
        },
{
    let n = remaining_nanos.len();
    if n == 0 {
        return -1;
    }
    let mut best: u64 = remaining_nanos[0] / NANOS_PER_MILLI;
    let mut k: usize = 1;
    while k < n
        invariant
            n == remaining_nanos@.len(),
            1 <= k <= n,
            forall|i: int| 0 <= i < k ==> best <= #[trigger] remaining_nanos@[i] / NANOS_PER_MILLI,
            exists|i: int| 0 <= i < k && best == #[trigger] remaining_nanos@[i] / NANOS_PER_MILLI,
        decreases n - k,
    {
        let m = remaining_nanos[k] / NANOS_PER_MILLI;
        if m < best {
            best = m;
        }
        k += 1;
    }
    proof {
        let i = choose|i: int| 0 <= i < n && best == #[trigger] remaining_nanos@[i] / NANOS_PER_MILLI;
        assert(remaining_nanos@[i] <= TIMEOUT_NANOS);
    }
    best as i32
}

/// The result of trying to read a message from a non-blocking client connection.
pub enum ReadEvent<M> {
    /// A whole message arrived.
    Message(M),
    /// Nothing to read yet.
    WouldBlock,
    /// The read failed.
    Failed,
    /// The client closed the connection.
    Closed,
}

/// What the server does with a client after a read attempt.
pub struct ReadAction<M> {
    /// The message to handle, if one arrived.
    pub message: Option<M>,
    /// Whether the client stays connected.
    pub connected: bool,
    /// Whether the client's last activity is now.
    pub active: bool,
}

/// Decides about a client after a read attempt: a message is handed on and counts as
/// activity; an empty non-blocking read changes nothing; a failed read or a closed
/// connection disconnects the client.
pub fn on_read<M>(event: ReadEvent<M>) -> (r: ReadAction<M>)
    ensures
        match event {
            ReadEvent::Message(m) => r.message == Some(m) && r.connected && r.active,
            ReadEvent::WouldBlock => r.message is None && r.connected && !r.active,
            ReadEvent::Failed => r.message is None && !r.connected && !r.active,
            ReadEvent::Closed => r.message is None && !r.connected && !r.active,
        },
{
    match event {
        ReadEvent::Message(m) => ReadAction { message: Some(m), connected: true, active: true },
        ReadEvent::WouldBlock => ReadAction { message: None, connected: true, active: false },
        ReadEvent::Failed => ReadAction { message: None, connected: false, active: false },
        ReadEvent::Closed => ReadAction { message: None, connected: false, active: false },
    }
}

} // verus!
