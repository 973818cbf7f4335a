use vstd::prelude::*;

verus! {

/// Where the listening process of an event loop stands: it has not yet asked to be woken,
/// or it waits for a connection to accept.
#[derive(Debug, Clone, Copy, PartialEq, Eq, Structural)]
pub enum ProcessState {
    Start,
    WaitingForAccept,
}

/// What the listening process asks the event loop to do on its behalf.
#[derive(Debug, Clone, Copy, PartialEq, Eq, Structural)]
pub enum ServerAction {
    /// Watch the listening socket and wake the process when it is readable.
    WatchListener,
    /// Accept the pending connection and start a client process for it.
    Accept,
}

/// One step of the listening process: on its first run it asks for the listening socket
/// to be watched and starts waiting; every later wake-up accepts a connection.
pub fn server_step(state: ProcessState) -> (r: (ProcessState, ServerAction))
    ensures
        r == (match state {
            ProcessState::Start => (ProcessState::WaitingForAccept, ServerAction::WatchListener),
            ProcessState::WaitingForAccept => (ProcessState::WaitingForAccept, ServerAction::Accept),
        }),
{
    match state {
        ProcessState::Start => (ProcessState::WaitingForAccept, ServerAction::WatchListener),
        ProcessState::WaitingForAccept => (ProcessState::WaitingForAccept, ServerAction::Accept),
    }
}

/// Where a client process of an event loop stands: it has not yet asked to be woken, or it
/// waits for the client to authenticate.
#[derive(Debug, Clone, Copy, PartialEq, Eq, Structural)]
pub enum ClientState {
    Start,
    WaitingForAuthenticate,
}

/// What a client process asks the event loop to do on its behalf.
#[derive(Debug, Clone, Copy, PartialEq, Eq, Structural)]
pub enum ClientAction {
    /// Watch the client's socket and wake the process when it is readable.
    WatchSocket,
    /// Read the next message from the client.
    Receive,
}

/// One step of a client process: on its first run it asks for its socket to be watched and
/// starts waiting for authentication; every later wake-up reads a message.
pub fn client_step(state: ClientState) -> (r: (ClientState, ClientAction))
    ensures
        r == (match state {
            ClientState::Start => (ClientState::WaitingForAuthenticate, ClientAction::WatchSocket),
            ClientState::WaitingForAuthenticate => (
                ClientState::WaitingForAuthenticate,
                ClientAction::Receive,
            ),
        }),
{
    match state {
        ClientState::Start => (ClientState::WaitingForAuthenticate, ClientAction::WatchSocket),
        ClientState::WaitingForAuthenticate => (ClientState::WaitingForAuthenticate, ClientAction::Receive),
    }
}

/// Whether `fd` is among the descriptors `fds`.
fn watches(fds: &Vec<i32>, fd: i32) -> (r: bool)
    ensures
        r == fds@.contains(fd),
{
    let mut k: usize = 0;
    while k < fds.len()
        invariant
            k <= fds@.len(),
            forall|m: int| 0 <= m < k ==> fds@[m] != fd,
        decreases fds@.len() - k,
    {
        if fds[k] == fd {
            assert(fds@[k as int] == fd);
            return true;
        }
        k += 1;
    }
    false
}

/// The tasks to wake when the descriptor `fd` becomes ready: the positions, in increasing
/// order, of the tasks whose descriptor lists hold `fd`, each once.
pub fn tasks_to_wake(task_fds: &Vec<Vec<i32>>, fd: i32) -> (r: Vec<usize>)
    ensures
        forall|a: int, b: int| 0 <= a < b < r@.len() ==> r@[a] < r@[b],
        forall|k: int|
            0 <= k < r@.len() ==> #[trigger] r@[k] < task_fds@.len() && task_fds@[r@[k] as int]@.contains(fd),
        forall|i: int|
            0 <= i < task_fds@.len() && #[trigger] task_fds@[i]@.contains(fd) ==> r@.contains(i as usize),
{
    let mut r: Vec<usize> = Vec::new();
    let mut i: usize = 0;
    while i < task_fds.len()
        invariant
            i <= task_fds@.len(),
            forall|a: int, b: int| 0 <= a < b < r@.len() ==> r@[a] < r@[b],
            forall|k: int| 0 <= k < r@.len() ==> #[trigger] r@[k] < i && task_fds@[r@[k] as int]@.contains(fd),
            forall|m: int| 0 <= m < i && #[trigger] task_fds@[m]@.contains(fd) ==> r@.contains(m as usize),
        decreases task_fds@.len() - i,
    {
        if watches(&task_fds[i], fd) {
            let ghost before = r@;
            r.push(i);
            proof {
                assert forall|m: int| 0 <= m < i + 1 && #[trigger] task_fds@[m]@.contains(fd) implies r@.contains(m as usize) by {
                    if m < i {
                        let k = choose|k: int| 0 <= k < before.len() && before[k] == m as usize;
                        assert(r@[k] == m as usize);
                    } else {
                        assert(r@[before.len() as int] == i);
                    }
                }
            }
        }
        i += 1;
    }
    r
}

} // verus!
