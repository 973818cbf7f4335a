use vstd::prelude::*;

verus! {

/// A request from a chat client.
#[derive(Debug)]
pub enum ClientToServerMsg {
    /// The first message of every connection: the client's username.
    Join { name: String },
    /// Checks that the connection works; answered by `Pong`.
    Ping,
    /// Asks for the names of all connected users.
    ListUsers,
    /// A direct message to the user `to`.
    SendDM { to: String, message: String },
    /// A message to every other connected user.
    Broadcast { message: String },
}

/// A message from the chat server to a client.
#[derive(Debug)]
pub enum ServerToClientMsg {
    /// The join was accepted.
    Welcome,
    /// The answer to `Ping`.
    Pong,
    /// The request failed; the text says why.
    Error(String),
    /// The names of the connected users.
    UserList { users: Vec<String> },
    /// A message from the user `from`.
    Message { from: String, message: String },
}

/// The mathematical content of a client request.
pub enum ClientMsgModel {
    Join { name: Seq<char> },
    Ping,
    ListUsers,
    SendDM { to: Seq<char>, message: Seq<char> },
    Broadcast { message: Seq<char> },
}

/// The mathematical content of a server message.
pub enum ServerMsgModel {
    Welcome,
    Pong,
    Error { text: Seq<char> },
    UserList { users: Seq<Seq<char>> },
    Message { from: Seq<char>, message: Seq<char> },
}

/// The characters of each string.
pub open spec fn names_view(v: Seq<String>) -> Seq<Seq<char>> {
    v.map_values(|s: String| s@)
}

impl View for ClientToServerMsg {
    type V = ClientMsgModel;

    open spec fn view(&self) -> ClientMsgModel {
        match self {
            ClientToServerMsg::Join { name } => ClientMsgModel::Join { name: name@ },
            ClientToServerMsg::Ping => ClientMsgModel::Ping,
            ClientToServerMsg::ListUsers => ClientMsgModel::ListUsers,
            ClientToServerMsg::SendDM { to, message } => ClientMsgModel::SendDM {
                to: to@,
                message: message@,
            },
            ClientToServerMsg::Broadcast { message } => ClientMsgModel::Broadcast { message: message@ },
        }
    }
}

impl View for ServerToClientMsg {
    type V = ServerMsgModel;

    open spec fn view(&self) -> ServerMsgModel {
        match self {
            ServerToClientMsg::Welcome => ServerMsgModel::Welcome,
            ServerToClientMsg::Pong => ServerMsgModel::Pong,
            ServerToClientMsg::Error(text) => ServerMsgModel::Error { text: text@ },
            ServerToClientMsg::UserList { users } => ServerMsgModel::UserList {
                users: names_view(users@),
            },
            ServerToClientMsg::Message { from, message } => ServerMsgModel::Message {
                from: from@,
                message: message@,
            },
        }
    }
}

/// A message for the connected user named `to`.
pub struct Delivery {
    pub to: String,
    pub msg: ServerToClientMsg,
}

impl View for Delivery {
    type V = (Seq<char>, ServerMsgModel);

    open spec fn view(&self) -> (Seq<char>, ServerMsgModel) {
        (self.to@, self.msg@)
    }
}

/// The views of a sequence of deliveries.
pub open spec fn deliveries_view(v: Seq<Delivery>) -> Seq<(Seq<char>, ServerMsgModel)> {
    v.map_values(|d: Delivery| d@)
}

/// `users` without the name `x`, the others kept in order.
pub open spec fn without(users: Seq<Seq<char>>, x: Seq<char>) -> Seq<Seq<char>>
    decreases users.len(),
{
    if users.len() == 0 {
        seq![]
    } else {
        let rest = without(users.drop_last(), x);
        if users.last() == x {
            rest
        } else {
            rest.push(users.last())
        }
    }
}

/// The text of the error sent for a direct message to an unknown user.
pub open spec fn unknown_user_text(to: Seq<char>) -> Seq<char> {
    "User "@ + to + " does not exist"@
}

/// What the server sends, and to whom, when the joined user `name` makes the request
/// `msg` while `users` are connected.
pub open spec fn spec_deliveries(users: Seq<Seq<char>>, name: Seq<char>, msg: ClientMsgModel) -> Seq<
    (Seq<char>, ServerMsgModel),
> {
    match msg {
        ClientMsgModel::Ping => seq![(name, ServerMsgModel::Pong)],
        ClientMsgModel::ListUsers => seq![(name, ServerMsgModel::UserList { users })],
        ClientMsgModel::Broadcast { message } => without(users, name).map_values(
            |u: Seq<char>| (u, ServerMsgModel::Message { from: name, message }),
        ),
        ClientMsgModel::SendDM { to, message } => if to == name {
            seq![(name, ServerMsgModel::Error { text: "Cannot send a DM to yourself"@ })]
        } else if users.contains(to) {
            seq![(to, ServerMsgModel::Message { from: name, message })]
        } else {
            seq![(name, ServerMsgModel::Error { text: unknown_user_text(to) })]
        },
        ClientMsgModel::Join { .. } => seq![
            (name, ServerMsgModel::Error { text: "Unexpected message received"@ }),
        ],
    }
}

/// Whether the server disconnects a joined client after the request `msg`: only a second
/// `Join` does so.
pub open spec fn spec_disconnects(msg: ClientMsgModel) -> bool {
    msg is Join
}

/// The first thing that happens on a new connection.
pub enum JoinEvent {
    /// The client sent its first message.
    Received(ClientToServerMsg),
    /// The connection closed before a message arrived.
    Closed,
    /// Reading the first message failed.
    ReadFailed,
    /// No message arrived within the time allowed.
    TimedOut,
}

/// How the server answers the first event of a connection.
pub enum JoinOutcome {
    /// The user joined under `name`; the server answers `Welcome`.
    Welcomed { name: String },
    /// The connection is refused; `reply` is what the server sends before closing, if
    /// anything.
    Refused { reply: Option<ServerToClientMsg> },
}

/// Whether a new connection is served.
pub enum Admission {
    /// The connection is served.
    Admitted,
    /// The server is full; `reply` is sent and the connection closed.
    Rejected { reply: ServerToClientMsg },
}

/// What the server does about one request of a joined user.
pub struct Reaction {
    /// The messages to send, in order.
    pub deliveries: Vec<Delivery>,
    /// Whether the requesting client is then disconnected.
    pub disconnect: bool,
}

/// The decision state of the chat server: how many connections it serves at most, how
/// many it serves now, and the names of the joined users, in the order they joined.
pub struct ChatServer {
    max_clients: usize,
    active: usize,
    users: Vec<String>,
}

impl ChatServer {
    /// The names of the joined users.
    pub closed spec fn users_view(&self) -> Seq<Seq<char>> {
        names_view(self.users@)
    }

    /// The number of connections being served.
    pub closed spec fn active_view(&self) -> nat {
        self.active as nat
    }

    /// The most connections served at once.
    pub closed spec fn capacity_view(&self) -> nat {
        self.max_clients as nat
    }

    /// No name is joined twice, and no more connections are served than allowed.
    pub open spec fn wf(&self) -> bool {
        &&& self.users_view().no_duplicates()
        &&& self.active_view() <= self.capacity_view()
    }

    /// A server with no connections that serves at most `max_clients` at once.
    pub fn new(max_clients: usize) -> (r: ChatServer)
        ensures
            r.wf(),
            r.users_view() == Seq::<Seq<char>>::empty(),
            r.active_view() == 0,
            r.capacity_view() == max_clients,
    {
        let r = ChatServer { max_clients, active: 0, users: Vec::new() };
        assert(r.users_view() =~= Seq::<Seq<char>>::empty());
        r
    }

    /// Whether a user of this name has joined.
    pub fn is_joined(&self, name: &String) -> (r: bool)
        ensures
            r == self.users_view().contains(name@),
    {
        let mut i: usize = 0;
        while i < self.users.len()
            invariant
                i <= self.users@.len(),
                forall|k: int| 0 <= k < i ==> self.users@[k]@ != name@,
            decreases self.users@.len() - i,
        {
            if self.users[i] == *name {
                assert(self.users_view()[i as int] == name@);
                return true;
            }
            i += 1;
        }
        proof {
            if self.users_view().contains(name@) {
                let k = choose|k: int| 0 <= k < self.users_view().len() && self.users_view()[k] == name@;
                assert(self.users@[k]@ == name@);
            }
        }
        false
    }

    /// The number of connections being served.
    pub fn active_connections(&self) -> (r: usize)
        ensures
            r == self.active_view(),
    {
        self.active
    }

    /// The names of the joined users, in the order they joined.
    pub fn user_names(&self) -> (r: Vec<String>)
        ensures
            names_view(r@) == self.users_view(),
    {
        let mut out: Vec<String> = Vec::new();
        let mut i: usize = 0;
        while i < self.users.len()
            invariant
                i <= self.users@.len(),
                names_view(out@) == names_view(self.users@.subrange(0, i as int)),
            decreases self.users@.len() - i,
        {
            let c = self.users[i].clone();
            assert(c@ == self.users@[i as int]@);
            let ghost prev = out@;
            out.push(c);
            assert(names_view(out@) =~= names_view(prev).push(c@));
            assert(self.users@.subrange(0, i + 1) =~= self.users@.subrange(0, i as int).push(self.users@[i as int]));
            assert(names_view(out@) =~= names_view(self.users@.subrange(0, i + 1)));
            i += 1;
        }
        assert(self.users@.subrange(0, i as int) =~= self.users@);
        out
    }

    /// Decides whether a new connection is served: when as many connections as allowed
    /// are served, the client is told "Server is full"; otherwise it is counted in.
    pub fn accept_connection(&mut self) -> (r: Admission)
        requires
            old(self).wf(),
        ensures
            final(self).wf(),
            final(self).users_view() == old(self).users_view(),
            final(self).capacity_view() == old(self).capacity_view(),
            old(self).active_view() >= old(self).capacity_view() ==> {
                &&& final(self).active_view() == old(self).active_view()
                &&& r matches Admission::Rejected { reply }
                &&& reply@ == ServerMsgModel::Error { text: "Server is full"@ }
            },
            old(self).active_view() < old(self).capacity_view() ==> {
                &&& final(self).active_view() == old(self).active_view() + 1
                &&& r is Admitted
            },
    {
        if self.active >= self.max_clients {
            Admission::Rejected { reply: ServerToClientMsg::Error("Server is full".to_owned()) }
        } else {
            self.active = self.active + 1;
            Admission::Admitted
        }
    }

    /// A served connection ended.
    pub fn connection_closed(&mut self)
        requires
            old(self).wf(),
            old(self).active_view() > 0,
        ensures
            final(self).wf(),
            final(self).users_view() == old(self).users_view(),
            final(self).capacity_view() == old(self).capacity_view(),
            final(self).active_view() == old(self).active_view() - 1,
    {
        self.active = self.active - 1;
    }

    /// Decides on the first event of a served connection. A `Join` under a free name is
    /// welcomed and the name joins the user list; a taken name is refused with "Username
    /// already taken"; any other first message with "Unexpected message received"; a
    /// closed connection with "Connection closed"; a timeout with "Timed out waiting for
    /// Join"; a failed read without a reply.
    pub fn join(&mut self, event: JoinEvent) -> (r: JoinOutcome)
        requires
            old(self).wf(),
        ensures
            final(self).wf(),
            final(self).active_view() == old(self).active_view(),
            final(self).capacity_view() == old(self).capacity_view(),
            match event {
                JoinEvent::Received(ClientToServerMsg::Join { name }) => if old(self).users_view().contains(name@) {
                    &&& final(self).users_view() == old(self).users_view()
                    &&& r matches JoinOutcome::Refused { reply: Some(m) }
                    &&& m@ == ServerMsgModel::Error { text: "Username already taken"@ }
                } else {
                    &&& final(self).users_view() == old(self).users_view().push(name@)
                    &&& r matches JoinOutcome::Welcomed { name: n }
                    &&& n@ == name@
                },
                JoinEvent::Received(_) => {
                    &&& final(self).users_view() == old(self).users_view()
                    &&& r matches JoinOutcome::Refused { reply: Some(m) }
                    &&& m@ == ServerMsgModel::Error { text: "Unexpected message received"@ }
                },
                JoinEvent::Closed => {
                    &&& final(self).users_view() == old(self).users_view()
                    &&& r matches JoinOutcome::Refused { reply: Some(m) }
                    &&& m@ == ServerMsgModel::Error { text: "Connection closed"@ }
                },
                JoinEvent::ReadFailed => {
                    &&& final(self).users_view() == old(self).users_view()
                    &&& r matches JoinOutcome::Refused { reply: None }
                },
                JoinEvent::TimedOut => {
                    &&& final(self).users_view() == old(self).users_view()
                    &&& r matches JoinOutcome::Refused { reply: Some(m) }
                    &&& m@ == ServerMsgModel::Error { text: "Timed out waiting for Join"@ }
                },
            },
    {
        match event {
            JoinEvent::Received(msg) => match msg {
                ClientToServerMsg::Join { name } => {
                    if self.is_joined(&name) {
                        JoinOutcome::Refused {
                            reply: Some(ServerToClientMsg::Error("Username already taken".to_owned())),
                        }
                    } else {
                        let ghost before = self.users@;
                        self.users.push(name.clone());
                        assert(names_view(self.users@) =~= names_view(before).push(name@));
                        JoinOutcome::Welcomed { name }
                    }
                },
                _ => JoinOutcome::Refused {
                    reply: Some(ServerToClientMsg::Error("Unexpected message received".to_owned())),
                },
            },
            JoinEvent::Closed => JoinOutcome::Refused {
                reply: Some(ServerToClientMsg::Error("Connection closed".to_owned())),
            },
            JoinEvent::ReadFailed => JoinOutcome::Refused { reply: None },
            JoinEvent::TimedOut => JoinOutcome::Refused {
                reply: Some(ServerToClientMsg::Error("Timed out waiting for Join".to_owned())),
            },
        }
    }

    /// The messages a broadcast of `message` by `name` sends: one to every other joined
    /// user, in the order they joined.
    fn broadcast(&self, name: &String, message: &String) -> (r: Vec<Delivery>)
        ensures
            deliveries_view(r@) == without(self.users_view(), name@).map_values(
                |u: Seq<char>| (u, ServerMsgModel::Message { from: name@, message: message@ }),
            ),
    {
        let ghost f = |u: Seq<char>| (u, ServerMsgModel::Message { from: name@, message: message@ });
        let mut out: Vec<Delivery> = Vec::new();
        let mut i: usize = 0;
        while i < self.users.len()
            invariant
                i <= self.users@.len(),
                f == (|u: Seq<char>| (u, ServerMsgModel::Message { from: name@, message: message@ })),
                deliveries_view(out@) == without(self.users_view().take(i as int), name@).map_values(f),
            decreases self.users@.len() - i,
        {
            let ghost prev = out@;
            let ghost users = self.users_view();
            assert(users.take(i + 1).drop_last() =~= users.take(i as int));
            assert(users.take(i + 1).last() == self.users@[i as int]@);
            if self.users[i] != *name {
                let d = Delivery {
                    to: self.users[i].clone(),
                    msg: ServerToClientMsg::Message { from: name.clone(), message: message.clone() },
                };
                out.push(d);
                assert(deliveries_view(out@) =~= deliveries_view(prev).push(d@));
                assert(without(users.take(i + 1), name@) == without(users.take(i as int), name@).push(
                    users[i as int],
                ));
                assert(deliveries_view(out@) =~= without(users.take(i + 1), name@).map_values(f));
            } else {
                assert(without(users.take(i + 1), name@) == without(users.take(i as int), name@));
            }
            i += 1;
        }
        assert(self.users_view().take(i as int) =~= self.users_view());
        out
    }

    /// Decides what the server does about the request `msg` of the joined user `name`:
    /// `Ping` is answered with `Pong`; `ListUsers` with the names of all joined users;
    /// `Broadcast` sends the message to every other joined user; `SendDM` sends it to the
    /// named user, or answers with an error when that is the sender ("Cannot send a DM to
    /// yourself") or nobody joined under that name ("User <to> does not exist"); a second
    /// `Join` is answered with "Unexpected message received" and ends the connection.
    pub fn react(&self, name: &String, msg: &ClientToServerMsg) -> (r: Reaction)
        requires
            self.wf(),
            self.users_view().contains(name@),
        ensures
            deliveries_view(r.deliveries@) == spec_deliveries(self.users_view(), name@, msg@),
            r.disconnect == spec_disconnects(msg@),
    {
        match msg {
            ClientToServerMsg::Ping => {
                let d = Delivery { to: name.clone(), msg: ServerToClientMsg::Pong };
                let v = vec![d];
                assert(deliveries_view(v@) =~= seq![d@]);
                Reaction { deliveries: v, disconnect: false }
            },
            ClientToServerMsg::ListUsers => {
                let users = self.user_names();
                let d = Delivery { to: name.clone(), msg: ServerToClientMsg::UserList { users } };
                let v = vec![d];
                assert(deliveries_view(v@) =~= seq![d@]);
                Reaction { deliveries: v, disconnect: false }
            },
            ClientToServerMsg::Broadcast { message } => {
                let v = self.broadcast(name, message);
                Reaction { deliveries: v, disconnect: false }
            },
            ClientToServerMsg::SendDM { to, message } => {
                let d = if *to == *name {
                    Delivery {
                        to: name.clone(),
                        msg: ServerToClientMsg::Error("Cannot send a DM to yourself".to_owned()),
                    }
                } else if self.is_joined(to) {
                    Delivery {
                        to: to.clone(),
                        msg: ServerToClientMsg::Message { from: name.clone(), message: message.clone() },
                    }
                } else {
                    let mut text = "User ".to_owned();
                    text.append(to.as_str());
                    text.append(" does not exist");
                    Delivery { to: name.clone(), msg: ServerToClientMsg::Error(text) }
                };
                let v = vec![d];
                assert(deliveries_view(v@) =~= seq![d@]);
                Reaction { deliveries: v, disconnect: false }
            },
            ClientToServerMsg::Join { .. } => {
                let d = Delivery {
                    to: name.clone(),
                    msg: ServerToClientMsg::Error("Unexpected message received".to_owned()),
                };
                let v = vec![d];
                assert(deliveries_view(v@) =~= seq![d@]);
                Reaction { deliveries: v, disconnect: true }
            },
        }
    }

    /// The user `name` left: the name is taken off the user list.
    pub fn leave(&mut self, name: &String)
        requires
            old(self).wf(),
        ensures
            final(self).wf(),
            final(self).users_view() == without(old(self).users_view(), name@),
            final(self).active_view() == old(self).active_view(),
            final(self).capacity_view() == old(self).capacity_view(),
    {
        let ghost users0 = self.users_view();
        let mut kept: Vec<String> = Vec::new();
        let mut i: usize = 0;
        while i < self.users.len()
            invariant
                i <= self.users@.len(),
                users0 == names_view(self.users@),
                names_view(kept@) == without(users0.take(i as int), name@),
            decreases self.users@.len() - i,
        {
            let ghost prev = kept@;
            assert(users0.take(i + 1).drop_last() =~= users0.take(i as int));
            assert(users0.take(i + 1).last() == self.users@[i as int]@);
            if self.users[i] != *name {
                let c = self.users[i].clone();
                kept.push(c);
                assert(names_view(kept@) =~= names_view(prev).push(c@));
            }
            i += 1;
        }
        assert(users0.take(i as int) =~= users0);
        proof {
            lemma_without_no_duplicates(users0, name@);
        }
        self.users = kept;
    }
}

/// Everything left in `without(s, x)` comes from `s` and differs from `x`, and everything
/// in `s` other than `x` is left.
pub proof fn lemma_without_contains(s: Seq<Seq<char>>, x: Seq<char>, u: Seq<char>)
    ensures
        without(s, x).contains(u) <==> (s.contains(u) && u != x),
    decreases s.len(),
{
    if s.len() > 0 {
        let d = s.drop_last();
        let l = s.last();
        let w = without(d, x);
        lemma_without_contains(d, x, u);
        assert(s =~= d.push(l));
        assert(s.contains(u) <==> (d.contains(u) || u == l)) by {
            if s.contains(u) && u != l {
                let k = choose|k: int| 0 <= k < s.len() && s[k] == u;
                assert(k < d.len());
                assert(d[k] == u);
            }
            if d.contains(u) {
                let k = choose|k: int| 0 <= k < d.len() && d[k] == u;
                assert(s[k] == u);
            }
            if u == l {
                assert(s[s.len() - 1] == u);
            }
        }
        if l != x {
            assert(w.push(l).contains(u) <==> (w.contains(u) || u == l)) by {
                if w.push(l).contains(u) && u != l {
                    let k = choose|k: int| 0 <= k < w.push(l).len() && w.push(l)[k] == u;
                    assert(k < w.len());
                    assert(w[k] == u);
                }
                if w.contains(u) {
                    let k = choose|k: int| 0 <= k < w.len() && w[k] == u;
                    assert(w.push(l)[k] == u);
                }
                if u == l {
                    assert(w.push(l)[w.len() as int] == u);
                }
            }
        }
    }
}

/// Removing a name from a list without repeated names leaves a list without repeated
/// names.
pub proof fn lemma_without_no_duplicates(s: Seq<Seq<char>>, x: Seq<char>)
    requires
        s.no_duplicates(),
    ensures
        without(s, x).no_duplicates(),
    decreases s.len(),
{
    if s.len() > 0 {
        let d = s.drop_last();
        assert(d.no_duplicates());
        lemma_without_no_duplicates(d, x);
        if s.last() != x {
            lemma_without_contains(d, x, s.last());
            assert(!d.contains(s.last()));
            let w = without(d, x);
            assert forall|i: int, j: int| 0 <= i < j < w.push(s.last()).len() implies w.push(
                s.last(),
            )[i] != w.push(s.last())[j] by {
                if j == w.len() {
                    assert(w.contains(w[i]));
                }
            }
        }
    }
}

/// Removing a name that is not in the list changes nothing.
pub proof fn lemma_without_absent(s: Seq<Seq<char>>, x: Seq<char>)
    requires
        !s.contains(x),
    ensures
        without(s, x) == s,
    decreases s.len(),
{
    if s.len() > 0 {
        assert(!s.drop_last().contains(x)) by {
            if s.drop_last().contains(x) {
                let k = choose|k: int| 0 <= k < s.drop_last().len() && s.drop_last()[k] == x;
                assert(s[k] == x);
            }
        }
        lemma_without_absent(s.drop_last(), x);
        assert(s.last() != x) by {
            assert(s[s.len() - 1] == s.last());
        }
        assert(s =~= s.drop_last().push(s.last()));
    }
}

/// A user who joins under a free name and then leaves leaves the user list as it was.
pub proof fn law_join_then_leave(users: Seq<Seq<char>>, name: Seq<char>)
    requires
        !users.contains(name),
    ensures
        without(users.push(name), name) == users,
{
    lemma_without_absent(users, name);
    assert(users.push(name).drop_last() =~= users);
}

/// A user who left is no longer on the user list, and every other user stays on it.
pub proof fn law_leave_removes_only_the_user(users: Seq<Seq<char>>, name: Seq<char>, u: Seq<char>)
    ensures
        !without(users, name).contains(name),
        u != name ==> (without(users, name).contains(u) <==> users.contains(u)),
{
    lemma_without_contains(users, name, name);
    lemma_without_contains(users, name, u);
}

/// A broadcast reaches every other joined user once, carries the sender's name and
/// message to each, and never goes back to the sender.
pub proof fn law_broadcast_reaches_others_once(
    users: Seq<Seq<char>>,
    name: Seq<char>,
    message: Seq<char>,
    u: Seq<char>,
)
    requires
        users.no_duplicates(),
    ensures
        ({
            let ds = spec_deliveries(users, name, ClientMsgModel::Broadcast { message });
            &&& forall|i: int|
                0 <= i < ds.len() ==> (#[trigger] ds[i]).1 == ServerMsgModel::Message {
                    from: name,
                    message,
                }
            &&& (exists|i: int| 0 <= i < ds.len() && (#[trigger] ds[i]).0 == u) <==> (users.contains(u)
                && u != name)
            &&& forall|i: int, j: int| 0 <= i < j < ds.len() ==> (#[trigger] ds[i]).0 != (#[trigger] ds[j]).0
        }),
{
    let w = without(users, name);
    let ds = spec_deliveries(users, name, ClientMsgModel::Broadcast { message });
    lemma_without_contains(users, name, u);
    lemma_without_no_duplicates(users, name);
    assert(ds.len() == w.len());
    assert forall|i: int| 0 <= i < ds.len() implies (#[trigger] ds[i]).0 == w[i] by {}
    if exists|i: int| 0 <= i < ds.len() && (#[trigger] ds[i]).0 == u {
        let i = choose|i: int| 0 <= i < ds.len() && (#[trigger] ds[i]).0 == u;
        assert(w[i] == u);
        assert(w.contains(u));
    }
    if users.contains(u) && u != name {
        assert(w.contains(u));
        let i = choose|i: int| 0 <= i < w.len() && w[i] == u;
        assert(ds[i].0 == u);
    }
}

/// A joined client stays connected after every request but a second `Join`: `Ping`,
/// `ListUsers`, `SendDM` and `Broadcast` never end the connection, and a second `Join`
/// always does.
pub proof fn law_only_second_join_disconnects(msg: ClientMsgModel)
    ensures
        msg is Ping ==> !spec_disconnects(msg),
        msg is ListUsers ==> !spec_disconnects(msg),
        msg is SendDM ==> !spec_disconnects(msg),
        msg is Broadcast ==> !spec_disconnects(msg),
        msg is Join ==> spec_disconnects(msg),
{
}

/// Every answer that is not a message for other users goes back to the user who asked:
/// a `Ping` gets exactly one `Pong`, `ListUsers` exactly one list of all joined users, a
/// second `Join` exactly one error, and a direct message to oneself or to a name nobody
/// joined under exactly one error, each addressed to the requester. A direct message to
/// another joined user is one message to that user, from the sender.
pub proof fn law_replies_go_to_requester(users: Seq<Seq<char>>, name: Seq<char>, msg: ClientMsgModel)
    ensures
        ({
            let ds = spec_deliveries(users, name, msg);
            &&& msg is Ping ==> ds.len() == 1 && ds[0].0 == name && ds[0].1 == ServerMsgModel::Pong
            &&& msg is ListUsers ==> ds.len() == 1 && ds[0].0 == name && ds[0].1
                == ServerMsgModel::UserList { users }
            &&& msg is Join ==> ds.len() == 1 && ds[0].0 == name && ds[0].1 is Error
            &&& msg matches ClientMsgModel::SendDM { to, message } ==> {
                &&& ds.len() == 1
                &&& (to == name || !users.contains(to)) ==> ds[0].0 == name && ds[0].1 is Error
                &&& (to != name && users.contains(to)) ==> ds[0].0 == to && ds[0].1
                    == ServerMsgModel::Message { from: name, message }
            }
        }),
{
}

} // verus!
