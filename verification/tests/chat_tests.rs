use lessons::chat::{
    Admission, ChatServer, ClientToServerMsg, Delivery, JoinEvent, JoinOutcome, ServerToClientMsg,
};

fn join(server: &mut ChatServer, name: &str) -> JoinOutcome {
    server.join(JoinEvent::Received(ClientToServerMsg::Join { name: name.to_string() }))
}

fn error_text(msg: &ServerToClientMsg) -> Option<String> {
    match msg {
        ServerToClientMsg::Error(t) => Some(t.clone()),
        _ => None,
    }
}

fn recipients(ds: &[Delivery]) -> Vec<String> {
    ds.iter().map(|d| d.to.clone()).collect()
}

#[test]
fn full_server_rejects_connections() {
    let mut server = ChatServer::new(2);
    assert!(matches!(server.accept_connection(), Admission::Admitted));
    assert!(matches!(server.accept_connection(), Admission::Admitted));
    match server.accept_connection() {
        Admission::Rejected { reply } => assert_eq!(error_text(&reply).as_deref(), Some("Server is full")),
        Admission::Admitted => panic!("a third connection was admitted"),
    }
    server.connection_closed();
    assert!(matches!(server.accept_connection(), Admission::Admitted));
}

#[test]
fn zero_capacity_server_rejects_everyone() {
    let mut server = ChatServer::new(0);
    assert!(matches!(server.accept_connection(), Admission::Rejected { .. }));
}

#[test]
fn join_welcomes_a_free_name() {
    let mut server = ChatServer::new(10);
    match join(&mut server, "alice") {
        JoinOutcome::Welcomed { name } => assert_eq!(name, "alice"),
        JoinOutcome::Refused { .. } => panic!("alice was refused"),
    }
    assert!(server.is_joined(&"alice".to_string()));
    assert_eq!(server.user_names(), vec!["alice".to_string()]);
}

#[test]
fn join_refuses_a_taken_name() {
    let mut server = ChatServer::new(10);
    join(&mut server, "alice");
    match join(&mut server, "alice") {
        JoinOutcome::Refused { reply: Some(m) } => {
            assert_eq!(error_text(&m).as_deref(), Some("Username already taken"))
        }
        _ => panic!("a taken name was accepted"),
    }
    assert_eq!(server.user_names(), vec!["alice".to_string()]);
}

#[test]
fn join_refuses_other_first_messages_and_events() {
    let mut server = ChatServer::new(10);
    match server.join(JoinEvent::Received(ClientToServerMsg::Ping)) {
        JoinOutcome::Refused { reply: Some(m) } => {
            assert_eq!(error_text(&m).as_deref(), Some("Unexpected message received"))
        }
        _ => panic!(),
    }
    match server.join(JoinEvent::Closed) {
        JoinOutcome::Refused { reply: Some(m) } => assert_eq!(error_text(&m).as_deref(), Some("Connection closed")),
        _ => panic!(),
    }
    match server.join(JoinEvent::TimedOut) {
        JoinOutcome::Refused { reply: Some(m) } => {
            assert_eq!(error_text(&m).as_deref(), Some("Timed out waiting for Join"))
        }
        _ => panic!(),
    }
    assert!(matches!(server.join(JoinEvent::ReadFailed), JoinOutcome::Refused { reply: None }));
    assert!(server.user_names().is_empty());
}

#[test]
fn ping_is_answered_with_pong() {
    let mut server = ChatServer::new(10);
    join(&mut server, "bob");
    let r = server.react(&"bob".to_string(), &ClientToServerMsg::Ping);
    assert!(!r.disconnect);
    assert_eq!(r.deliveries.len(), 1);
    assert_eq!(r.deliveries[0].to, "bob");
    assert!(matches!(r.deliveries[0].msg, ServerToClientMsg::Pong));
}

#[test]
fn list_users_answers_all_joined_names() {
    let mut server = ChatServer::new(10);
    join(&mut server, "a");
    join(&mut server, "b");
    join(&mut server, "c");
    let r = server.react(&"b".to_string(), &ClientToServerMsg::ListUsers);
    assert_eq!(r.deliveries.len(), 1);
    assert_eq!(r.deliveries[0].to, "b");
    match &r.deliveries[0].msg {
        ServerToClientMsg::UserList { users } => {
            assert_eq!(users, &vec!["a".to_string(), "b".to_string(), "c".to_string()])
        }
        _ => panic!(),
    }
}

#[test]
fn broadcast_reaches_every_other_user_once() {
    let mut server = ChatServer::new(10);
    for n in ["a", "b", "c", "d"] {
        join(&mut server, n);
    }
    let r = server.react(&"c".to_string(), &ClientToServerMsg::Broadcast { message: "hi".to_string() });
    assert!(!r.disconnect);
    assert_eq!(recipients(&r.deliveries), vec!["a".to_string(), "b".to_string(), "d".to_string()]);
    for d in &r.deliveries {
        match &d.msg {
            ServerToClientMsg::Message { from, message } => {
                assert_eq!(from, "c");
                assert_eq!(message, "hi");
            }
            _ => panic!(),
        }
    }
}

#[test]
fn broadcast_by_the_only_user_sends_nothing() {
    let mut server = ChatServer::new(10);
    join(&mut server, "solo");
    let r = server.react(&"solo".to_string(), &ClientToServerMsg::Broadcast { message: "echo?".to_string() });
    assert!(r.deliveries.is_empty());
}

#[test]
fn direct_message_goes_to_the_recipient() {
    let mut server = ChatServer::new(10);
    join(&mut server, "a");
    join(&mut server, "b");
    let r = server.react(
        &"a".to_string(),
        &ClientToServerMsg::SendDM { to: "b".to_string(), message: "psst".to_string() },
    );
    assert_eq!(recipients(&r.deliveries), vec!["b".to_string()]);
    match &r.deliveries[0].msg {
        ServerToClientMsg::Message { from, message } => {
            assert_eq!(from, "a");
            assert_eq!(message, "psst");
        }
        _ => panic!(),
    }
}

#[test]
fn direct_message_to_self_is_an_error() {
    let mut server = ChatServer::new(10);
    join(&mut server, "a");
    let r = server.react(&"a".to_string(), &ClientToServerMsg::SendDM { to: "a".to_string(), message: "x".to_string() });
    assert_eq!(recipients(&r.deliveries), vec!["a".to_string()]);
    assert_eq!(error_text(&r.deliveries[0].msg).as_deref(), Some("Cannot send a DM to yourself"));
}

#[test]
fn direct_message_to_unknown_user_is_an_error() {
    let mut server = ChatServer::new(10);
    join(&mut server, "a");
    let r = server.react(
        &"a".to_string(),
        &ClientToServerMsg::SendDM { to: "zed".to_string(), message: "x".to_string() },
    );
    assert_eq!(recipients(&r.deliveries), vec!["a".to_string()]);
    assert_eq!(error_text(&r.deliveries[0].msg).as_deref(), Some("User zed does not exist"));
}

#[test]
fn second_join_is_an_error_and_disconnects() {
    let mut server = ChatServer::new(10);
    join(&mut server, "a");
    let r = server.react(&"a".to_string(), &ClientToServerMsg::Join { name: "other".to_string() });
    assert!(r.disconnect);
    assert_eq!(recipients(&r.deliveries), vec!["a".to_string()]);
    assert_eq!(error_text(&r.deliveries[0].msg).as_deref(), Some("Unexpected message received"));
}

#[test]
fn join_then_leave_restores_the_user_list() {
    let mut server = ChatServer::new(10);
    join(&mut server, "a");
    join(&mut server, "b");
    let before = server.user_names();
    join(&mut server, "c");
    server.leave(&"c".to_string());
    assert_eq!(server.user_names(), before);
    assert!(!server.is_joined(&"c".to_string()));
    assert!(matches!(join(&mut server, "c"), JoinOutcome::Welcomed { .. }));
}

#[test]
fn leave_keeps_the_others_in_order() {
    let mut server = ChatServer::new(10);
    for n in ["a", "b", "c"] {
        join(&mut server, n);
    }
    server.leave(&"b".to_string());
    assert_eq!(server.user_names(), vec!["a".to_string(), "c".to_string()]);
    server.leave(&"nobody".to_string());
    assert_eq!(server.user_names(), vec!["a".to_string(), "c".to_string()]);
}
