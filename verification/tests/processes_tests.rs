use lessons::processes::{
    client_step, server_step, tasks_to_wake, ClientAction, ClientState, ProcessState, ServerAction,
};

#[test]
fn server_watches_first_then_accepts() {
    assert_eq!(
        server_step(ProcessState::Start),
        (ProcessState::WaitingForAccept, ServerAction::WatchListener)
    );
    assert_eq!(
        server_step(ProcessState::WaitingForAccept),
        (ProcessState::WaitingForAccept, ServerAction::Accept)
    );
}

#[test]
fn client_watches_first_then_receives() {
    assert_eq!(
        client_step(ClientState::Start),
        (ClientState::WaitingForAuthenticate, ClientAction::WatchSocket)
    );
    assert_eq!(
        client_step(ClientState::WaitingForAuthenticate),
        (ClientState::WaitingForAuthenticate, ClientAction::Receive)
    );
}

#[test]
fn ready_descriptor_wakes_every_task_watching_it_in_order() {
    let task_fds = vec![vec![3], vec![], vec![5, 3], vec![7], vec![3, 3]];
    assert_eq!(tasks_to_wake(&task_fds, 3), vec![0, 2, 4]);
    assert_eq!(tasks_to_wake(&task_fds, 7), vec![3]);
    assert_eq!(tasks_to_wake(&task_fds, 9), Vec::<usize>::new());
    assert_eq!(tasks_to_wake(&Vec::new(), 3), Vec::<usize>::new());
}
