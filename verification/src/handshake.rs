//! How the server deals with a connection: what a client has to prove, and what it is told then.
use crate::clipboard::{data_view, Config, Contents, Data};
use crate::text::{
    has_control, is_control, law_control_codes, number, number_text, text_view,
};
use crate::update::{News, Update};
use vstd::prelude::*;
use vstd::utf8::*;

verus! {

/// The longest name that a client can go by, in bytes.
pub const MAX_NAME_LENGTH: usize = 64;

/// How many connections can wait to authenticate at a time.
pub const MAX_PENDING: usize = 16;

/// Whether a client can go by that name: there is something in it, it is not too long, and it
/// has no control characters in it.
pub open spec fn sane(name: Seq<char>) -> bool {
    &&& name.len() > 0
    &&& encode_utf8(name).len() <= MAX_NAME_LENGTH
    &&& forall|i: int| 0 <= i < name.len() ==> !is_control(#[trigger] name[i])
}

/// Whether a client can go by that name.
pub fn is_sane(name: &String) -> (r: bool)
    ensures
        r == sane(name@),
{
    if name.as_str().unicode_len() == 0 {
        return false;
    }
    name.as_str().as_bytes().len() <= MAX_NAME_LENGTH && !has_control(name.as_str())
}

/// Why a client is turned away.
#[derive(Clone, Copy, Debug, PartialEq, Eq, Structural)]
pub enum Refusal {
    /// It speaks another version of the protocol.
    Version { server: u16, client: u16 },
    /// It does not know the password.
    Auth,
    /// It cannot go by its name.
    Name,
}

impl Refusal {
    /// What is said of it.
    pub open spec fn text(self) -> Seq<char> {
        match self {
            Refusal::Version { server, client } => "Incompatible client version (got "@
                + number_text(client as nat) + ", expected "@ + number_text(server as nat) + ")"@,
            Refusal::Auth => "Invalid password"@,
            Refusal::Name => "Invalid client name"@,
        }
    }

    /// What is said of it.
    pub fn message(&self) -> (r: String)
        ensures
            r@ == self.text(),
    {
        match self {
            Refusal::Version { server, client } => {
                let got = number(*client as usize);
                let expected = number(*server as usize);
                "Incompatible client version (got ".to_owned().concat(got.as_str()).concat(
                    ", expected ",
                ).concat(expected.as_str()).concat(")")
            },
            Refusal::Auth => "Invalid password".to_owned(),
            Refusal::Name => "Invalid client name".to_owned(),
        }
    }
}

/// What comes next on a connection that was encrypted.
#[derive(Debug)]
pub enum Stage {
    /// Send the version of the protocol.
    SendVersion,
    /// Read the version that the client speaks.
    ReadVersion,
    /// Send a challenge that can only be met with the password.
    SendChallenge,
    /// Read the response to the challenge.
    ReadResponse,
    /// Send whether the response was right.
    SendStatus(bool),
    /// Read the name of the client.
    ReadName,
    /// Have the client registered under its name. It has authenticated.
    Register(Option<String>),
    /// Tell the client what there is to tell.
    Serve,
    /// Close the connection: the server is going away.
    Close,
    /// Close the connection: the client is turned away.
    Refuse(Refusal),
}

/// What a stage led to.
#[derive(Debug)]
pub enum Heard {
    /// What had to be sent was sent.
    Sent,
    /// The client speaks that version.
    Version(u16),
    /// The client met the challenge, or did not.
    Response(bool),
    /// The client wants to go by that name.
    Name(Option<String>),
    /// The client was registered, or the server is going away.
    Registered(bool),
}

/// What a [`Stage`] is.
#[verifier::ext_equal]
pub enum Phase {
    SendVersion,
    ReadVersion,
    SendChallenge,
    ReadResponse,
    SendStatus(bool),
    ReadName,
    Register(Option<Seq<char>>),
    Serve,
    Close,
    Refuse(Refusal),
}

/// What [`Heard`] says.
#[verifier::ext_equal]
pub enum Reply {
    Sent,
    Version(u16),
    Response(bool),
    Name(Option<Seq<char>>),
    Registered(bool),
}

impl View for Stage {
    type V = Phase;

    open spec fn view(&self) -> Phase {
        match *self {
            Stage::SendVersion => Phase::SendVersion,
            Stage::ReadVersion => Phase::ReadVersion,
            Stage::SendChallenge => Phase::SendChallenge,
            Stage::ReadResponse => Phase::ReadResponse,
            Stage::SendStatus(passed) => Phase::SendStatus(passed),
            Stage::ReadName => Phase::ReadName,
            Stage::Register(name) => Phase::Register(text_view(name)),
            Stage::Serve => Phase::Serve,
            Stage::Close => Phase::Close,
            Stage::Refuse(refusal) => Phase::Refuse(refusal),
        }
    }
}

impl View for Heard {
    type V = Reply;

    open spec fn view(&self) -> Reply {
        match *self {
            Heard::Sent => Reply::Sent,
            Heard::Version(version) => Reply::Version(version),
            Heard::Response(right) => Reply::Response(right),
            Heard::Name(name) => Reply::Name(text_view(name)),
            Heard::Registered(accepted) => Reply::Registered(accepted),
        }
    }
}

impl Phase {
    /// Whether a reply is one that the stage leads to.
    pub open spec fn expects(self, reply: Reply) -> bool {
        match self {
            Phase::SendVersion | Phase::SendChallenge | Phase::SendStatus(_) => reply is Sent,
            Phase::ReadVersion => reply is Version,
            Phase::ReadResponse => reply is Response,
            Phase::ReadName => reply is Name,
            Phase::Register(_) => reply is Registered,
            Phase::Serve | Phase::Close | Phase::Refuse(_) => false,
        }
    }

    /// What comes after the stage, for a server that speaks version `server`.
    pub open spec fn then_on(self, server: u16, reply: Reply) -> Phase {
        match (self, reply) {
            (Phase::SendVersion, _) => Phase::ReadVersion,
            (Phase::ReadVersion, Reply::Version(client)) => if client == server {
                Phase::SendChallenge
            } else {
                Phase::Refuse(Refusal::Version { server, client })
            },
            (Phase::SendChallenge, _) => Phase::ReadResponse,
            (Phase::ReadResponse, Reply::Response(right)) => Phase::SendStatus(right),
            (Phase::SendStatus(passed), _) => if passed {
                Phase::ReadName
            } else {
                Phase::Refuse(Refusal::Auth)
            },
            (Phase::ReadName, Reply::Name(name)) => if name matches Some(name) && !sane(name) {
                Phase::Refuse(Refusal::Name)
            } else {
                Phase::Register(name)
            },
            (Phase::Register(_), Reply::Registered(accepted)) => if accepted {
                Phase::Serve
            } else {
                Phase::Close
            },
            _ => self,
        }
    }
}

impl Stage {
    /// What a server does first.
    pub fn start() -> (r: Stage)
        ensures
            r@ == Phase::SendVersion,
    {
        Stage::SendVersion
    }

    /// What comes after the stage, for a server that speaks version `server`.
    pub fn next(self, server: u16, heard: Heard) -> (r: Stage)
        requires
            self@.expects(heard@),
        ensures
            r@ == self@.then_on(server, heard@),
    {
        match (self, heard) {
            (Stage::SendVersion, _) => Stage::ReadVersion,
            (Stage::ReadVersion, Heard::Version(client)) => if client == server {
                Stage::SendChallenge
            } else {
                Stage::Refuse(Refusal::Version { server, client })
            },
            (Stage::SendChallenge, _) => Stage::ReadResponse,
            (Stage::ReadResponse, Heard::Response(right)) => Stage::SendStatus(right),
            (Stage::SendStatus(passed), _) => if passed {
                Stage::ReadName
            } else {
                Stage::Refuse(Refusal::Auth)
            },
            (Stage::ReadName, Heard::Name(name)) => {
                let acceptable = match &name {
                    Some(name) => is_sane(name),
                    None => true,
                };
                if acceptable {
                    Stage::Register(name)
                } else {
                    Stage::Refuse(Refusal::Name)
                }
            },
            (Stage::Register(_), Heard::Registered(accepted)) => if accepted {
                Stage::Serve
            } else {
                Stage::Close
            },
            (stage, _) => stage,
        }
    }
}

/// How far a connection has come after some replies.
pub open spec fn progress(server: u16, replies: Seq<Reply>) -> Phase
    decreases replies.len(),
{
    if replies.len() == 0 {
        Phase::SendVersion
    } else {
        progress(server, replies.drop_last()).then_on(server, replies.last())
    }
}

/// Whether every reply was one that the stage before it leads to.
pub open spec fn orderly(server: u16, replies: Seq<Reply>) -> bool
    decreases replies.len(),
{
    replies.len() > 0 ==> {
        &&& orderly(server, replies.drop_last())
        &&& progress(server, replies.drop_last()).expects(replies.last())
    }
}

/// A client is registered and served only if it speaks the version of the server, has met the
/// challenge, and can go by its name. One that has not met the challenge is told so, and then
/// turned away.
pub proof fn law_only_proven_clients_are_served(server: u16, replies: Seq<Reply>)
    requires
        orderly(server, replies),
    ensures
        ({
            let phase = progress(server, replies);
            &&& phase is Register || phase is Serve ==> {
                &&& replies.len() >= 6
                &&& replies[1] == Reply::Version(server)
                &&& replies[3] == Reply::Response(true)
                &&& replies[5] matches Reply::Name(name) && (name matches Some(name) ==> sane(
                    name,
                ))
            }
            &&& phase matches Phase::Refuse(Refusal::Version { server: own, client }) ==> own
                == server && client != server && replies[1] == Reply::Version(client)
            &&& phase == Phase::Refuse(Refusal::Auth) ==> replies.len() == 5 && replies[3]
                == Reply::Response(false) && progress(server, replies.drop_last())
                == Phase::SendStatus(false)
            &&& phase == Phase::Refuse(Refusal::Name) ==> (replies[5] matches Reply::Name(
                Some(name),
            ) && !sane(name))
        }),
{
    lemma_progress(server, replies);
}

proof fn lemma_progress(server: u16, replies: Seq<Reply>)
    requires
        orderly(server, replies),
    ensures
        ({
            let phase = progress(server, replies);
            &&& phase is SendVersion ==> replies.len() == 0
            &&& phase is ReadVersion ==> replies.len() == 1
            &&& phase is SendChallenge ==> replies.len() == 2
            &&& phase is ReadResponse ==> replies.len() == 3
            &&& phase is SendStatus ==> replies.len() == 4
            &&& phase is ReadName ==> replies.len() == 5
            &&& phase is Register ==> replies.len() == 6
            &&& phase is Serve || phase is Close ==> replies.len() == 7
            &&& phase !is Refuse && replies.len() >= 2 ==> replies[1] == Reply::Version(server)
            &&& phase matches Phase::SendStatus(passed) ==> replies[3] == Reply::Response(passed)
            &&& phase !is Refuse && replies.len() >= 5 ==> replies[3] == Reply::Response(true)
            &&& phase !is Refuse && replies.len() >= 6 ==> (replies[5] matches Reply::Name(name)
                && (name matches Some(name) ==> sane(name)))
            &&& phase matches Phase::Refuse(refusal) ==> match refusal {
                Refusal::Version { server: own, client } => replies.len() == 2 && own == server
                    && client != server && replies[1] == Reply::Version(client),
                Refusal::Auth => replies.len() == 5 && replies[3] == Reply::Response(false)
                    && progress(server, replies.drop_last()) == Phase::SendStatus(false),
                Refusal::Name => replies.len() == 6 && (replies[5] matches Reply::Name(
                    Some(name),
                ) && !sane(name)),
            }
        }),
    decreases replies.len(),
{
    if replies.len() > 0 {
        lemma_progress(server, replies.drop_last());
    }
}

/// How long to wait for the answer to a ping: reading the clipboard takes time, so it is longer
/// where that is shared.
pub fn reply_timeout(clipboard: &Option<Config>, sharing: u64, reading: u64) -> (r: u64)
    ensures
        r == if clipboard is Some {
            sharing
        } else {
            reading
        },
{
    match clipboard {
        Some(_) => sharing,
        None => reading,
    }
}

/// What comes next on a connection that is being served.
pub enum Talk {
    /// Wait for something to tell, or for the time of the next ping.
    Wait,
    /// Tell the client.
    Tell(Update),
    /// Read the answer to a ping.
    ReadPong,
    /// Share what the client has on its clipboard.
    Share(Data),
    /// Close the connection.
    Close,
}

/// What that led to.
pub enum Turn {
    /// It is time for a ping.
    Tick,
    /// There is something to tell, or never will be again.
    Update(Option<Update>),
    /// The client was told.
    Told,
    /// The client has answered, with what was copied on it since it last did.
    Pong(Option<Data>),
    /// What is on the clipboard was shared, or the server is going away.
    Shared(bool),
}

/// What a [`Talk`] is.
#[verifier::ext_equal]
pub enum Topic {
    Wait,
    Tell(News),
    ReadPong,
    Share(Contents),
    Close,
}

/// What a [`Turn`] says.
#[verifier::ext_equal]
pub enum Twist {
    Tick,
    Update(Option<News>),
    Told,
    Pong(Option<Contents>),
    Shared(bool),
}

impl View for Talk {
    type V = Topic;

    open spec fn view(&self) -> Topic {
        match *self {
            Talk::Wait => Topic::Wait,
            Talk::Tell(update) => Topic::Tell(update@),
            Talk::ReadPong => Topic::ReadPong,
            Talk::Share(data) => Topic::Share(data@),
            Talk::Close => Topic::Close,
        }
    }
}

impl View for Turn {
    type V = Twist;

    open spec fn view(&self) -> Twist {
        match *self {
            Turn::Tick => Twist::Tick,
            Turn::Update(Some(update)) => Twist::Update(Some(update@)),
            Turn::Update(None) => Twist::Update(None),
            Turn::Told => Twist::Told,
            Turn::Pong(data) => Twist::Pong(data_view(data)),
            Turn::Shared(heard) => Twist::Shared(heard),
        }
    }
}

impl Topic {
    /// Whether it can lead to that.
    pub open spec fn expects(self, twist: Twist) -> bool {
        match self {
            Topic::Wait => twist is Tick || twist is Update,
            Topic::Tell(_) => twist is Told,
            Topic::ReadPong => twist is Pong,
            Topic::Share(_) => twist is Shared,
            Topic::Close => false,
        }
    }

    /// What comes after it. A client that was sent a ping answers, and what it has copied is
    /// shared.
    pub open spec fn then_on(self, twist: Twist) -> Topic {
        match (self, twist) {
            (Topic::Wait, Twist::Tick) => Topic::Tell(News::Ping),
            (Topic::Wait, Twist::Update(Some(update))) => Topic::Tell(update),
            (Topic::Wait, Twist::Update(None)) => Topic::Close,
            (Topic::Tell(update), _) => if update is Ping {
                Topic::ReadPong
            } else {
                Topic::Wait
            },
            (Topic::ReadPong, Twist::Pong(Some(contents))) => Topic::Share(contents),
            (Topic::Share(_), Twist::Shared(false)) => Topic::Close,
            _ => Topic::Wait,
        }
    }
}

impl Talk {
    /// What comes after it.
    pub fn next(self, turn: Turn) -> (r: Talk)
        requires
            self@.expects(turn@),
        ensures
            r@ == self@.then_on(turn@),
    {
        match (self, turn) {
            (Talk::Wait, Turn::Tick) => Talk::Tell(Update::Ping),
            (Talk::Wait, Turn::Update(Some(update))) => Talk::Tell(update),
            (Talk::Wait, Turn::Update(None)) => Talk::Close,
            (Talk::Tell(update), _) => match update {
                Update::Ping => Talk::ReadPong,
                _ => Talk::Wait,
            },
            (Talk::ReadPong, Turn::Pong(Some(data))) => Talk::Share(data),
            (Talk::Share(_), Turn::Shared(false)) => Talk::Close,
            _ => Talk::Wait,
        }
    }
}

/// What waits to be told, if anything does: an update, or that there will never be one again.
pub open spec fn waiting_view(waiting: Option<Option<Update>>) -> Option<Option<News>> {
    match waiting {
        Some(Some(update)) => Some(Some(update@)),
        Some(None) => Some(None),
        None => None,
    }
}

/// What to turn to, and what waits then. A ping that is due goes before anything that waits.
pub open spec fn turned(
    due: bool,
    waiting: Option<Option<News>>,
) -> (Option<Twist>, Option<Option<News>>) {
    if due {
        (Some(Twist::Tick), waiting)
    } else {
        match waiting {
            Some(update) => (Some(Twist::Update(update)), None),
            None => (None, None),
        }
    }
}

/// What to turn to on a connection that waits, given whether a ping is due. The client could time
/// out if it did not get its pings, so they have priority; what waits goes on waiting.
pub fn turn(due: bool, waiting: &mut Option<Option<Update>>) -> (r: Option<Turn>)
    ensures
        r matches Some(turn) ==> turned(due, waiting_view(*old(waiting))).0 == Some(turn@),
        r is None ==> turned(due, waiting_view(*old(waiting))).0 is None,
        waiting_view(*final(waiting)) == turned(due, waiting_view(*old(waiting))).1,
{
    if due {
        return Some(Turn::Tick);
    }
    match waiting.take() {
        Some(update) => Some(Turn::Update(update)),
        None => None,
    }
}

/// The update at the front of a queue.
pub open spec fn front(queue: Seq<News>) -> Option<Option<News>> {
    if queue.len() > 0 {
        Some(Some(queue[0]))
    } else {
        None
    }
}

/// What is left of a queue after one turn.
pub open spec fn left(due: bool, queue: Seq<News>) -> Seq<News> {
    if queue.len() > 0 && turned(due, front(queue)).1 is None {
        queue.skip(1)
    } else {
        queue
    }
}

/// What is told at several turns, one after the other, where `due` says for each whether a ping
/// is due, and `queue` waits.
pub open spec fn tells(due: Seq<bool>, queue: Seq<News>) -> Seq<News>
    decreases due.len(),
{
    if due.len() == 0 {
        seq![]
    } else {
        let rest = tells(due.skip(1), left(due[0], queue));
        match turned(due[0], front(queue)).0 {
            Some(twist) => match Topic::Wait.then_on(twist) {
                Topic::Tell(news) => seq![news] + rest,
                _ => rest,
            },
            None => rest,
        }
    }
}

/// What is left of a queue after several turns.
pub open spec fn left_all(due: Seq<bool>, queue: Seq<News>) -> Seq<News>
    decreases due.len(),
{
    if due.len() == 0 {
        queue
    } else {
        left_all(due.skip(1), left(due[0], queue))
    }
}

/// What of several updates is no ping.
pub open spec fn no_pings(updates: Seq<News>) -> Seq<News> {
    updates.filter(|news: News| !(news is Ping))
}

/// Pings have priority: if one is due, it is the next that is told, whatever waits. Updates that
/// wait come after it, in order, and none is lost: what was told besides pings and what still
/// waits are all that waited.
pub proof fn law_pings_have_priority(due: Seq<bool>, queue: Seq<News>)
    requires
        forall|i: int| 0 <= i < queue.len() ==> !(#[trigger] queue[i] is Ping),
    ensures
        due.len() > 0 && due[0] ==> tells(due, queue).len() > 0 && tells(due, queue)[0]
            == News::Ping && left(true, queue) == queue,
        no_pings(tells(due, queue)) + left_all(due, queue) == queue,
    decreases due.len(),
{
    let kept = |news: News| !(news is Ping);
    reveal(Seq::filter);
    if due.len() == 0 {
        assert(no_pings(tells(due, queue)) + left_all(due, queue) =~= queue);
    } else {
        let next = left(due[0], queue);
        let later = tells(due.skip(1), next);
        assert forall|i: int| 0 <= i < next.len() implies !(#[trigger] next[i] is Ping) by {
            if next.len() < queue.len() {
                assert(next[i] == queue[i + 1]);
            } else {
                assert(next[i] == queue[i]);
            }
        }
        law_pings_have_priority(due.skip(1), next);
        if due[0] {
            lemma_filter_front(News::Ping, later, kept);
        } else if queue.len() > 0 {
            lemma_filter_front(queue[0], later, kept);
            assert(!(queue[0] is Ping));
            assert(no_pings(tells(due, queue)) + left_all(due, queue) =~= seq![queue[0]] + (
            no_pings(later) + left_all(due.skip(1), next)));
            assert(seq![queue[0]] + queue.skip(1) =~= queue);
        }
    }
}

proof fn lemma_filter_front(first: News, others: Seq<News>, kept: spec_fn(News) -> bool)
    ensures
        (seq![first] + others).filter(kept) == if kept(first) {
            seq![first] + others.filter(kept)
        } else {
            others.filter(kept)
        },
{
    reveal(Seq::filter);
    let alone = seq![first];
    Seq::filter_distributes_over_add(alone, others, kept);
    assert(alone.drop_last() =~= seq![]);
    assert(alone.drop_last().filter(kept) =~= seq![]);
    assert(alone.filter(kept) =~= if kept(first) {
        alone
    } else {
        seq![]
    });
}

/// Whether a client can go by a name: it has something in it, no more than 64 bytes, and no control
/// code.
pub open spec fn usable(name: Seq<char>) -> bool {
    &&& name.len() > 0
    &&& encode_utf8(name).len() <= 64
    &&& forall|i: int|
        0 <= i < name.len() ==> !((#[trigger] name[i]) as int <= 31 || 127 <= name[i] as int
            <= 159)
}

/// A client that speaks the version of the server, meets the challenge and has a usable name or
/// none is registered under it, and served once it is. The server takes its turns one after the
/// other: it sends its version, reads that of the client, sends the challenge, reads the response,
/// sends how that was, and reads the name. If the server is going away, it closes the connection.
pub proof fn law_proven_clients_are_served(server: u16, name: Option<Seq<char>>, accepted: bool)
    requires
        name matches Some(name) ==> usable(name),
    ensures
        ({
            let replies = seq![
                Reply::Sent,
                Reply::Version(server),
                Reply::Sent,
                Reply::Response(true),
                Reply::Sent,
                Reply::Name(name),
                Reply::Registered(accepted),
            ];
            &&& orderly(server, replies)
            &&& progress(server, replies.take(0)) == Phase::SendVersion
            &&& progress(server, replies.take(1)) == Phase::ReadVersion
            &&& progress(server, replies.take(2)) == Phase::SendChallenge
            &&& progress(server, replies.take(3)) == Phase::ReadResponse
            &&& progress(server, replies.take(4)) == Phase::SendStatus(true)
            &&& progress(server, replies.take(5)) == Phase::ReadName
            &&& progress(server, replies.take(6)) == Phase::Register(name)
            &&& progress(server, replies) == if accepted {
                Phase::Serve
            } else {
                Phase::Close
            }
        }),
{
    let replies = seq![
        Reply::Sent,
        Reply::Version(server),
        Reply::Sent,
        Reply::Response(true),
        Reply::Sent,
        Reply::Name(name),
        Reply::Registered(accepted),
    ];
    lemma_step(server, replies, 0);
    lemma_step(server, replies, 1);
    lemma_step(server, replies, 2);
    lemma_step(server, replies, 3);
    lemma_step(server, replies, 4);
    lemma_step(server, replies, 5);
    lemma_step(server, replies, 6);
    assert(replies.take(7) =~= replies);
    if let Some(name) = name {
        law_usable_names(name);
    }
}

proof fn lemma_step(server: u16, replies: Seq<Reply>, i: int)
    requires
        0 <= i < replies.len(),
    ensures
        progress(server, replies.take(i + 1)) == progress(server, replies.take(i)).then_on(
            server,
            replies[i],
        ),
        orderly(server, replies.take(i + 1)) <==> orderly(server, replies.take(i)) && progress(
            server,
            replies.take(i),
        ).expects(replies[i]),
        progress(server, replies.take(0)) == Phase::SendVersion,
        orderly(server, replies.take(0)),
{
    assert(replies.take(i + 1).drop_last() =~= replies.take(i));
    assert(replies.take(i + 1).last() == replies[i]);
    assert(replies.take(0) =~= seq![]);
}

/// The names that a client can go by.
pub proof fn law_usable_names(name: Seq<char>)
    ensures
        sane(name) <==> usable(name),
{
    if sane(name) {
        assert forall|i: int| 0 <= i < name.len() implies !((#[trigger] name[i]) as int <= 31
            || 127 <= name[i] as int <= 159) by {
            assert(!is_control(name[i]));
            law_control_codes(name[i]);
        }
    }
    if usable(name) {
        assert forall|i: int| 0 <= i < name.len() implies !is_control(#[trigger] name[i]) by {
            assert(!(name[i] as int <= 31 || 127 <= name[i] as int <= 159));
            law_control_codes(name[i]);
        }
    }
}

/// A client of another version is turned away before it is challenged; one that does not meet the
/// challenge is told so, and turned away before it is asked for its name; and one whose name cannot
/// be used is turned away before it is registered. Each is told apart.
pub proof fn law_unproven_clients_are_turned_away(server: u16, client: u16, name: Seq<char>)
    requires
        client != server,
        !usable(name),
    ensures
        Phase::ReadVersion.then_on(server, Reply::Version(client)) == Phase::Refuse(
            (Refusal::Version { server, client }),
        ),
        Phase::ReadResponse.then_on(server, Reply::Response(false)) == Phase::SendStatus(false),
        Phase::SendStatus(false).then_on(server, Reply::Sent) == Phase::Refuse(Refusal::Auth),
        Phase::ReadName.then_on(server, Reply::Name(Some(name))) == Phase::Refuse(Refusal::Name),
{
    law_usable_names(name);
}

/// Each stage leads to one kind of reply only, and the last ones to none.
pub proof fn law_stages_and_replies(phase: Phase, reply: Reply)
    ensures
        phase.expects(reply) <==> {
            ||| (phase is SendVersion || phase is SendChallenge || phase is SendStatus)
                && reply is Sent
            ||| phase is ReadVersion && reply is Version
            ||| phase is ReadResponse && reply is Response
            ||| phase is ReadName && reply is Name
            ||| phase is Register && reply is Registered
        },
{
}

/// What is said of a client that is turned away.
pub proof fn law_refusals_say_why(server: u16, client: u16)
    ensures
        Refusal::Auth.text() == "Invalid password"@,
        Refusal::Name.text() == "Invalid client name"@,
        (Refusal::Version { server, client }).text() == "Incompatible client version (got "@
            + number_text(client as nat) + ", expected "@ + number_text(server as nat) + ")"@,
{
}

/// After an update was told, an answer is read exactly if the update was a ping. After any other
/// the connection waits again at once, and what comes next is told, with nothing read in between.
pub proof fn law_only_pings_are_answered(update: News, next: News, twist: Twist)
    ensures
        Topic::Tell(update).then_on(Twist::Told) == if update is Ping {
            Topic::ReadPong
        } else {
            Topic::Wait
        },
        !(update is Ping) ==> Topic::Wait.then_on(Twist::Update(Some(update))).then_on(
            Twist::Told,
        ).then_on(Twist::Update(Some(next))) == Topic::Tell(next),
        Topic::Wait.then_on(Twist::Tick).then_on(Twist::Told) == Topic::ReadPong,
        Topic::Tell(update).expects(twist) <==> twist is Told,
{
}

/// Several updates in a row, none of them a ping, are told one after the other, and the connection
/// waits then.
pub open spec fn told_in_a_row(topic: Topic, updates: Seq<News>) -> (Seq<News>, Topic)
    decreases updates.len(),
{
    if updates.len() == 0 {
        (seq![], topic)
    } else {
        let (told, before) = told_in_a_row(topic, updates.drop_last());
        let now = before.then_on(Twist::Update(Some(updates.last())));
        match now {
            Topic::Tell(update) => (told.push(update), now.then_on(Twist::Told)),
            _ => (told, now),
        }
    }
}

/// Updates in a row are told as they are and in order, and nothing is read between them.
pub proof fn law_updates_in_a_row_are_told(updates: Seq<News>)
    requires
        forall|i: int| 0 <= i < updates.len() ==> !(#[trigger] updates[i] is Ping),
    ensures
        told_in_a_row(Topic::Wait, updates) == (updates, Topic::Wait),
    decreases updates.len(),
{
    if updates.len() == 0 {
        assert(updates =~= seq![]);
    } else {
        let fewer = updates.drop_last();
        assert forall|i: int| 0 <= i < fewer.len() implies !(#[trigger] fewer[i] is Ping) by {
            assert(!(updates[i] is Ping));
        }
        law_updates_in_a_row_are_told(fewer);
        assert(!(updates[updates.len() - 1] is Ping));
        assert(fewer.push(updates.last()) =~= updates);
    }
}

/// What a client has copied comes with its answer to a ping, and is shared as it is. Then the
/// connection waits again, or is closed if the server is going away; it is closed, too, when
/// nothing will ever be told again.
pub proof fn law_answers_are_shared(contents: Contents, twist: Twist)
    ensures
        Topic::ReadPong.then_on(Twist::Pong(Some(contents))) == Topic::Share(contents),
        Topic::ReadPong.then_on(Twist::Pong(None)) == Topic::Wait,
        Topic::Share(contents).then_on(Twist::Shared(true)) == Topic::Wait,
        Topic::Share(contents).then_on(Twist::Shared(false)) == Topic::Close,
        Topic::Wait.then_on(Twist::Update(None)) == Topic::Close,
        Topic::Wait.then_on(Twist::Tick) == Topic::Tell(News::Ping),
        Topic::Wait.expects(twist) <==> twist is Tick || twist is Update,
        Topic::ReadPong.expects(twist) <==> twist is Pong,
        Topic::Share(contents).expects(twist) <==> twist is Shared,
        !Topic::Close.expects(twist),
{
}

/// If no ping is due, what waits is turned to at once, as it is, and does not wait any more. If
/// nothing waits either, there is nothing to turn to.
pub proof fn law_what_waits_is_told(update: Option<News>, waiting: Option<Option<News>>)
    ensures
        turned(false, Some(update)) == (Some(Twist::Update(update)), None::<Option<News>>),
        turned(false, None) == (None::<Twist>, None::<Option<News>>),
        turned(true, waiting) == (Some(Twist::Tick), waiting),
{
}

/// Stages, replies and what is said on a connection are told by what they hold.
pub proof fn law_conversations_are_what_they_hold(
    name: Option<String>,
    version: u16,
    flag: bool,
    refusal: Refusal,
    update: Update,
    data: Data,
)
    ensures
        Stage::SendVersion@ is SendVersion,
        Stage::ReadVersion@ is ReadVersion,
        Stage::SendChallenge@ is SendChallenge,
        Stage::ReadResponse@ is ReadResponse,
        Stage::SendStatus(flag)@ == Phase::SendStatus(flag),
        Stage::ReadName@ is ReadName,
        Stage::Register(name)@ == Phase::Register(text_view(name)),
        Stage::Serve@ is Serve,
        Stage::Close@ is Close,
        Stage::Refuse(refusal)@ == Phase::Refuse(refusal),
        Heard::Sent@ is Sent,
        Heard::Version(version)@ == Reply::Version(version),
        Heard::Response(flag)@ == Reply::Response(flag),
        Heard::Name(name)@ == Reply::Name(text_view(name)),
        Heard::Registered(flag)@ == Reply::Registered(flag),
        Talk::Wait@ is Wait,
        Talk::Tell(update)@ == Topic::Tell(update@),
        Talk::ReadPong@ is ReadPong,
        Talk::Share(data)@ == Topic::Share(data@),
        Talk::Close@ is Close,
        Turn::Tick@ is Tick,
        Turn::Update(Some(update))@ == Twist::Update(Some(update@)),
        Turn::Update(None)@ == Twist::Update(None),
        Turn::Told@ is Told,
        Turn::Pong(Some(data))@ == Twist::Pong(Some(data@)),
        Turn::Pong(None)@ == Twist::Pong(None),
        Turn::Shared(flag)@ == Twist::Shared(flag),
        waiting_view(Some(Some(update))) == Some(Some(update@)),
        waiting_view(Some(None)) == Some(None::<News>),
        waiting_view(None) is None,
{
}

/// Sixteen connections can wait to authenticate.
pub proof fn law_connection_limits()
    ensures
        MAX_PENDING == 16,
        MAX_NAME_LENGTH == 64,
{
}

} // verus!
