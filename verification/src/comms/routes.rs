//! The command router: answers the console's commands at once, from what the relay knows, as an
//! adapter on its own would.
use crate::comms::result::SendResult;
use crate::relay::{get_peer, peer_id, take_slot, Relay};
#[allow(unused_imports)]
use crate::relay::{Decoded, RelayView};
use vstd::prelude::*;

verus! {

/// The adapter commands.
#[derive(Clone, Copy, Debug, PartialEq, Eq, Structural)]
pub enum Command {
    /// No command at all.
    NoCommand,
    Init1,
    Init2,
    Unknown,
    GetSomeValue,
    Broadcast,
    Setup,
    StartHost,
    AcceptConnections,
    EndHost,
    BroadcastReadStart,
    BroadcastReadPoll,
    BroadcastReadEnd,
    Connect,
    IsConnecting,
    FinishConnecting,
    SendData,
    SendDataAndWait,
    ReceiveData,
    ReceiveDataAndWait,
    ReceiveDataAndWaitResponse,
}

/// The code of a command.
pub open spec fn command_code(c: Command) -> u8 {
    match c {
        Command::NoCommand => 0x00,
        Command::Init1 => 0x10,
        Command::Init2 => 0x3d,
        Command::Unknown => 0x11,
        Command::GetSomeValue => 0x13,
        Command::Broadcast => 0x16,
        Command::Setup => 0x17,
        Command::StartHost => 0x19,
        Command::AcceptConnections => 0x1a,
        Command::EndHost => 0x1b,
        Command::BroadcastReadStart => 0x1c,
        Command::BroadcastReadPoll => 0x1d,
        Command::BroadcastReadEnd => 0x1e,
        Command::Connect => 0x1f,
        Command::IsConnecting => 0x20,
        Command::FinishConnecting => 0x21,
        Command::SendData => 0x24,
        Command::SendDataAndWait => 0x25,
        Command::ReceiveData => 0x26,
        Command::ReceiveDataAndWait => 0x27,
        Command::ReceiveDataAndWaitResponse => 0x28,
    }
}

/// The command with code `b`; a code that no command has stands for `Command::NoCommand`.
pub open spec fn command_of(b: u8) -> Command {
    match b {
        0x10 => Command::Init1,
        0x3d => Command::Init2,
        0x11 => Command::Unknown,
        0x13 => Command::GetSomeValue,
        0x16 => Command::Broadcast,
        0x17 => Command::Setup,
        0x19 => Command::StartHost,
        0x1a => Command::AcceptConnections,
        0x1b => Command::EndHost,
        0x1c => Command::BroadcastReadStart,
        0x1d => Command::BroadcastReadPoll,
        0x1e => Command::BroadcastReadEnd,
        0x1f => Command::Connect,
        0x20 => Command::IsConnecting,
        0x21 => Command::FinishConnecting,
        0x24 => Command::SendData,
        0x25 => Command::SendDataAndWait,
        0x26 => Command::ReceiveData,
        0x27 => Command::ReceiveDataAndWait,
        0x28 => Command::ReceiveDataAndWaitResponse,
        _ => Command::NoCommand,
    }
}

impl From<u8> for Command {
    fn from(b: u8) -> (c: Command) {
        match b {
            0x10 => Command::Init1,
            0x3d => Command::Init2,
            0x11 => Command::Unknown,
            0x13 => Command::GetSomeValue,
            0x16 => Command::Broadcast,
            0x17 => Command::Setup,
            0x19 => Command::StartHost,
            0x1a => Command::AcceptConnections,
            0x1b => Command::EndHost,
            0x1c => Command::BroadcastReadStart,
            0x1d => Command::BroadcastReadPoll,
            0x1e => Command::BroadcastReadEnd,
            0x1f => Command::Connect,
            0x20 => Command::IsConnecting,
            0x21 => Command::FinishConnecting,
            0x24 => Command::SendData,
            0x25 => Command::SendDataAndWait,
            0x26 => Command::ReceiveData,
            0x27 => Command::ReceiveDataAndWait,
            0x28 => Command::ReceiveDataAndWaitResponse,
            _ => Command::NoCommand,
        }
    }
}

impl vstd::std_specs::convert::FromSpecImpl<u8> for Command {
    open spec fn obeys_from_spec() -> bool {
        true
    }

    open spec fn from_spec(b: u8) -> Command {
        command_of(b)
    }
}

impl From<Command> for u8 {
    fn from(c: Command) -> (b: u8) {
        match c {
            Command::NoCommand => 0x00,
            Command::Init1 => 0x10,
            Command::Init2 => 0x3d,
            Command::Unknown => 0x11,
            Command::GetSomeValue => 0x13,
            Command::Broadcast => 0x16,
            Command::Setup => 0x17,
            Command::StartHost => 0x19,
            Command::AcceptConnections => 0x1a,
            Command::EndHost => 0x1b,
            Command::BroadcastReadStart => 0x1c,
            Command::BroadcastReadPoll => 0x1d,
            Command::BroadcastReadEnd => 0x1e,
            Command::Connect => 0x1f,
            Command::IsConnecting => 0x20,
            Command::FinishConnecting => 0x21,
            Command::SendData => 0x24,
            Command::SendDataAndWait => 0x25,
            Command::ReceiveData => 0x26,
            Command::ReceiveDataAndWait => 0x27,
            Command::ReceiveDataAndWaitResponse => 0x28,
        }
    }
}

impl vstd::std_specs::convert::FromSpecImpl<Command> for u8 {
    open spec fn obeys_from_spec() -> bool {
        true
    }

    open spec fn from_spec(c: Command) -> u8 {
        command_code(c)
    }
}

/// A command's code is read back as that command, and a byte is read as the command whose code it
/// is; the bytes that are no command's code, and those alone, are read like the code 0.
pub proof fn law_codes_round_trip(c: Command, b: u8)
    ensures
        command_of(command_code(c)) == c,
        command_of(b) == Command::NoCommand || command_code(command_of(b)) == b,
        command_of(b) == Command::NoCommand <==> b == 0 || forall|d: Command|
            command_code(d) != b,
{
    if forall|d: Command| command_code(d) != b {
        assert(command_code(command_of(b)) != b);
    }
}

/// How many words a reply can hold.
pub const REPLY_MAX: usize = 8;

/// The answer to a poll for a connection that is still being made.
pub const STILL_CONNECTING: u32 = 0x01000000;

/// How many polls a connection takes.
pub const CONNECT_POLLS: u8 = 3;

/// A request of the console's: its command, whether it is marked as a response, and all its words.
pub struct Request {
    pub command: u8,
    pub is_response: bool,
    pub raw: Vec<u32>,
}

#[verifier::ext_equal]
pub struct RequestView {
    pub command: u8,
    pub is_response: bool,
    pub raw: Seq<u32>,
}

impl View for Request {
    type V = RequestView;

    open spec fn view(&self) -> RequestView {
        RequestView { command: self.command, is_response: self.is_response, raw: self.raw@ }
    }
}

/// What the router is waiting for.
#[derive(Clone, Copy, Debug, PartialEq, Eq, Structural)]
pub enum Phase {
    /// To be started.
    Off,
    /// The link to be reset.
    Resetting,
    /// The login to be through.
    LoggingIn,
    /// A request.
    Receiving,
    /// The request with this command to be mirrored.
    Mirroring { command: Command },
    /// The answer to be sent.
    Answering,
    /// The relay to be polled.
    Polling,
}

/// What has happened: the last action is done, and has given this.
pub enum RouterEvent {
    Done,
    Request(SendResult<Request>),
    Sent(SendResult<()>),
}

#[verifier::ext_equal]
pub enum EventView {
    Done,
    Request(SendResult<RequestView>),
    Sent(SendResult<()>),
}

impl View for RouterEvent {
    type V = EventView;

    open spec fn view(&self) -> EventView {
        match self {
            RouterEvent::Done => EventView::Done,
            RouterEvent::Request(SendResult::Data(r)) => EventView::Request(
                SendResult::Data(r@),
            ),
            RouterEvent::Request(SendResult::Reset) => EventView::Request(SendResult::Reset),
            RouterEvent::Sent(r) => EventView::Sent(*r),
        }
    }
}

/// What has to be done next.
#[derive(Debug, PartialEq, Eq)]
pub enum RouterAction {
    /// Reset the link.
    ResetLink,
    /// Log in.
    Login,
    /// Receive a request; gives `RouterEvent::Request`.
    RecvReq,
    /// Hand these words to the UART and to USB.
    Mirror(Vec<u32>),
    /// Acknowledge the request and change the clock; gives `RouterEvent::Sent`.
    AsyncAck,
    /// Reply to the request with the first `len` words; gives `RouterEvent::Sent`.
    Reply { words: [u32; 8], len: usize },
    /// Poll the relay.
    PollRelay,
}

#[verifier::ext_equal]
pub enum ActionView {
    ResetLink,
    Login,
    RecvReq,
    Mirror(Seq<u32>),
    AsyncAck,
    Reply(Seq<u32>),
    PollRelay,
}

impl View for RouterAction {
    type V = ActionView;

    open spec fn view(&self) -> ActionView {
        match self {
            RouterAction::ResetLink => ActionView::ResetLink,
            RouterAction::Login => ActionView::Login,
            RouterAction::RecvReq => ActionView::RecvReq,
            RouterAction::Mirror(raw) => ActionView::Mirror(raw@),
            RouterAction::AsyncAck => ActionView::AsyncAck,
            RouterAction::Reply { words, len } => ActionView::Reply(words@.take(*len as int)),
            RouterAction::PollRelay => ActionView::PollRelay,
        }
    }
}

/// The router.
#[verifier::ext_equal]
pub struct RouterView {
    /// Whether `GetSomeValue` was last answered with the non-zero value.
    pub some_value_high: bool,
    /// The polls of the connection that have been answered with "still connecting".
    pub connecting_polls: u8,
    pub connected: bool,
    pub phase: Phase,
}

/// What answering a command does: to the router, to what the relay has decoded, and the words of
/// the reply.
#[verifier::ext_equal]
pub struct Answer {
    pub router: RouterView,
    pub decoded: Decoded,
    pub words: Seq<u32>,
}

/// The answer to `command`, with room for `room` words.
pub open spec fn respond(v: RouterView, d: Decoded, command: Command, room: int) -> Answer {
    let nothing = Answer { router: v, decoded: d, words: Seq::empty() };
    match command {
        Command::GetSomeValue => Answer {
            router: RouterView { some_value_high: !v.some_value_high, ..v },
            words: seq![
                if v.some_value_high {
                    0x00000000u32
                } else {
                    0x0200abcdu32
                },
            ],
            ..nothing
        },
        Command::Unknown => Answer { words: seq![0x000000ffu32], ..nothing },
        Command::BroadcastReadPoll | Command::BroadcastReadEnd => if room >= 7 {
            Answer { words: crate::relay::peer_words(d), ..nothing }
        } else {
            nothing
        },
        Command::Connect => Answer { router: disconnected(v), ..nothing },
        Command::IsConnecting | Command::FinishConnecting => match d.peer {
            Some(p) => if !v.connected && v.connecting_polls < CONNECT_POLLS {
                Answer {
                    router: RouterView {
                        connecting_polls: (v.connecting_polls + 1) as u8,
                        ..v
                    },
                    words: seq![STILL_CONNECTING],
                    ..nothing
                }
            } else {
                Answer {
                    router: RouterView { connected: true, ..v },
                    words: seq![p.id],
                    ..nothing
                }
            },
            None => nothing,
        },
        Command::ReceiveData | Command::ReceiveDataAndWaitResponse => Answer {
            decoded: Decoded { slot: None, ..d },
            words: crate::relay::slot_words(d, room),
            ..nothing
        },
        _ => nothing,
    }
}

/// The router with no connection and none under way.
pub open spec fn disconnected(v: RouterView) -> RouterView {
    RouterView { connecting_polls: 0, connected: false, ..v }
}

/// Whether `command` is answered with exactly one word whatever the room.
pub open spec fn needs_a_word(d: Decoded, command: Command) -> bool {
    match command {
        Command::GetSomeValue | Command::Unknown => true,
        Command::IsConnecting | Command::FinishConnecting => d.peer is Some,
        _ => false,
    }
}

/// Whether `event` is the outcome that the router is waiting for.
pub open spec fn expects(phase: Phase, event: EventView) -> bool {
    match phase {
        Phase::Receiving => event is Request,
        Phase::Answering => event is Sent,
        _ => event is Done,
    }
}

/// The router with the link about to be reset.
pub open spec fn restarted(v: RouterView) -> RouterView {
    RouterView { phase: Phase::Resetting, ..disconnected(v) }
}

/// The router, what the relay has decoded, and the next action, after `event`.
pub open spec fn run_step(v: RouterView, d: Decoded, event: EventView) -> (
    RouterView,
    Decoded,
    ActionView,
) {
    match (v.phase, event) {
        (Phase::Off, _) => (restarted(v), d, ActionView::ResetLink),
        (Phase::Resetting, _) => (
            RouterView { phase: Phase::LoggingIn, ..v },
            d,
            ActionView::Login,
        ),
        (Phase::LoggingIn, _) | (Phase::Polling, _) => (
            RouterView { phase: Phase::Receiving, ..v },
            d,
            ActionView::RecvReq,
        ),
        (Phase::Receiving, EventView::Request(SendResult::Data(req))) => if req.is_response {
            (RouterView { phase: Phase::Polling, ..v }, d, ActionView::PollRelay)
        } else {
            (
                RouterView {
                    phase: Phase::Mirroring { command: command_of(req.command) },
                    ..v
                },
                d,
                ActionView::Mirror(req.raw),
            )
        },
        (Phase::Mirroring { command }, _) => if waits(command) {
            (RouterView { phase: Phase::Answering, ..v }, d, ActionView::AsyncAck)
        } else {
            let answer = respond(v, d, command, REPLY_MAX as int);
            (
                RouterView { phase: Phase::Answering, ..answer.router },
                answer.decoded,
                ActionView::Reply(answer.words),
            )
        },
        (Phase::Answering, EventView::Sent(SendResult::Data(_))) => (
            RouterView { phase: Phase::Polling, ..v },
            d,
            ActionView::PollRelay,
        ),
        _ => (restarted(v), d, ActionView::ResetLink),
    }
}

/// The commands that hand the clock over.
pub open spec fn waits(command: Command) -> bool {
    command == Command::SendDataAndWait || command == Command::ReceiveDataAndWait
}

pub struct Router {
    some_value_high: bool,
    connecting_polls: u8,
    connected: bool,
    phase: Phase,
}

impl View for Router {
    type V = RouterView;

    closed spec fn view(&self) -> RouterView {
        RouterView {
            some_value_high: self.some_value_high,
            connecting_polls: self.connecting_polls,
            connected: self.connected,
            phase: self.phase,
        }
    }
}

impl Router {
    /// A router that has not been started.
    pub fn new() -> (r: Self)
        ensures
            r@ == (RouterView {
                some_value_high: false,
                connecting_polls: 0,
                connected: false,
                phase: Phase::Off,
            }),
            connection_inv(r@),
            r@ == disconnected(r@),
    {
        Router {
            some_value_high: false,
            connecting_polls: 0,
            connected: false,
            phase: Phase::Off,
        }
    }

    /// Begins to log in.
    pub fn login(&mut self) -> (action: RouterAction)
        ensures
            final(self)@ == (RouterView { phase: Phase::LoggingIn, ..old(self)@ }),
            action@ == ActionView::Login,
    {
        self.phase = Phase::LoggingIn;
        RouterAction::Login
    }

    /// Gives up the connection, and begins to reset the link.
    pub fn reset(&mut self) -> (action: RouterAction)
        ensures
            final(self)@ == restarted(old(self)@),
            action@ == ActionView::ResetLink,
    {
        self.connecting_polls = 0;
        self.connected = false;
        self.phase = Phase::Resetting;
        RouterAction::ResetLink
    }

    /// Answers a command from what the relay knows: writes the words of the reply to `out` and
    /// returns how many there are. Nothing is waited for: without a partner the answer says so.
    pub fn local_respond(
        &mut self,
        relay: &mut Relay,
        command: Command,
        out: &mut [u32],
    ) -> (n: usize)
        requires
            old(relay).wf(),
            needs_a_word(old(relay)@.decoded, command) ==> old(out)@.len() >= 1,
        ensures
            final(relay).wf(),
            final(relay)@.parser == old(relay)@.parser,
            ({
                let answer = respond(
                    old(self)@,
                    old(relay)@.decoded,
                    command,
                    old(out)@.len() as int,
                );
                &&& final(self)@ == answer.router
                &&& final(relay)@.decoded == answer.decoded
                &&& n == answer.words.len()
                &&& final(out)@ == answer.words + old(out)@.skip(n as int)
            }),
    {
        assert(Seq::<u32>::empty() + out@.skip(0) =~= out@);
        proof {
            crate::relay::law_decoded_sizes(&*relay);
        }
        match command {
            Command::GetSomeValue => {
                self.some_value_high = !self.some_value_high;
                out[0] = if self.some_value_high {
                    0x0200abcd
                } else {
                    0x00000000
                };
                assert(out@ =~= seq![out@[0]] + old(out)@.skip(1));
                1
            },
            Command::Unknown => {
                out[0] = 0x000000ff;
                assert(out@ =~= seq![out@[0]] + old(out)@.skip(1));
                1
            },
            Command::BroadcastReadPoll | Command::BroadcastReadEnd => get_peer(relay, out),
            Command::Connect => {
                self.connecting_polls = 0;
                self.connected = false;
                0
            },
            Command::IsConnecting | Command::FinishConnecting => {
                match peer_id(relay) {
                    Some(id) => {
                        if !self.connected && self.connecting_polls < CONNECT_POLLS {
                            self.connecting_polls = self.connecting_polls + 1;
                            out[0] = STILL_CONNECTING;
                        } else {
                            self.connected = true;
                            out[0] = id;
                        }
                        assert(out@ =~= seq![out@[0]] + old(out)@.skip(1));
                        1
                    },
                    None => 0,
                }
            },
            Command::ReceiveData | Command::ReceiveDataAndWaitResponse => take_slot(relay, out),
            _ => 0,
        }
    }

    /// Takes in what receiving a request gave, and names the next action. A request is mirrored
    /// before it is answered, and a response is ignored. A reset is only passed on: the router
    /// stays as it is.
    pub fn handle_req(&mut self, received: SendResult<Request>) -> (r: SendResult<RouterAction>)
        ensures
            received is Reset ==> r is Reset && final(self)@ == old(self)@,
            received matches SendResult::Data(req) ==> {
                &&& r matches SendResult::Data(action)
                &&& req.is_response ==> {
                    &&& final(self)@ == (RouterView { phase: Phase::Polling, ..old(self)@ })
                    &&& action@ == ActionView::PollRelay
                }
                &&& !req.is_response ==> {
                    &&& final(self)@ == (RouterView {
                        phase: Phase::Mirroring { command: command_of(req.command) },
                        ..old(self)@
                    })
                    &&& action@ == ActionView::Mirror(req.raw@)
                }
            },
    {
        match received {
            SendResult::Reset => SendResult::Reset,
            SendResult::Data(req) => {
                let command = Command::from(req.command);
                if req.is_response {
                    self.phase = Phase::Polling;
                    return SendResult::Data(RouterAction::PollRelay);
                }
                self.phase = Phase::Mirroring { command };
                SendResult::Data(RouterAction::Mirror(req.raw))
            },
        }
    }

    /// Answers the request that has been mirrored.
    fn answer(&mut self, relay: &mut Relay, command: Command) -> (action: RouterAction)
        requires
            old(relay).wf(),
            old(self)@.phase == (Phase::Mirroring { command }),
        ensures
            final(relay).wf(),
            final(relay)@.parser == old(relay)@.parser,
            (final(self)@, final(relay)@.decoded, action@) == run_step(
                old(self)@,
                old(relay)@.decoded,
                EventView::Done,
            ),
    {
        match command {
            Command::SendDataAndWait | Command::ReceiveDataAndWait => {
                self.phase = Phase::Answering;
                RouterAction::AsyncAck
            },
            _ => {
                let mut words: [u32; 8] = [0;8];
                let len: usize = self.local_respond(relay, command, &mut words);
                self.phase = Phase::Answering;
                assert(words@.take(len as int) =~= respond(
                    old(self)@,
                    old(relay)@.decoded,
                    command,
                    8,
                ).words);
                RouterAction::Reply { words, len }
            },
        }
    }

    /// The router's loop, from one outside action to the next: takes in what the last action gave,
    /// decides, and names the next one.
    pub fn run(&mut self, relay: &mut Relay, event: RouterEvent) -> (action: RouterAction)
        requires
            old(relay).wf(),
            expects(old(self)@.phase, event@),
        ensures
            final(relay).wf(),
            final(relay)@.parser == old(relay)@.parser,
            (final(self)@, final(relay)@.decoded, action@) == run_step(
                old(self)@,
                old(relay)@.decoded,
                event@,
            ),
    {
        match self.phase {
            Phase::Off => self.reset(),
            Phase::Resetting => self.login(),
            Phase::LoggingIn | Phase::Polling => {
                self.phase = Phase::Receiving;
                RouterAction::RecvReq
            },
            Phase::Receiving => match event {
                RouterEvent::Request(received) => match self.handle_req(received) {
                    SendResult::Data(action) => action,
                    SendResult::Reset => self.reset(),
                },
                _ => self.reset(),
            },
            Phase::Mirroring { command } => self.answer(relay, command),
            Phase::Answering => match event {
                RouterEvent::Sent(SendResult::Data(_)) => {
                    self.phase = Phase::Polling;
                    RouterAction::PollRelay
                },
                _ => self.reset(),
            },
        }
    }
}

/// Whether `event` is of the kind that doing `action` gives.
pub open spec fn gives(action: ActionView, event: EventView) -> bool {
    match action {
        ActionView::RecvReq => event is Request,
        ActionView::AsyncAck | ActionView::Reply(_) => event is Sent,
        _ => event is Done,
    }
}

/// The router never waits for anything but the outcome of the action that it named: whatever that
/// action gives is what `run` accepts next.
pub proof fn law_outcomes_are_expected(
    v: RouterView,
    d: Decoded,
    event: EventView,
    outcome: EventView,
)
    requires
        expects(v.phase, event),
        gives(run_step(v, d, event).2, outcome),
    ensures
        expects(run_step(v, d, event).0.phase, outcome),
{
}

/// Every request that is no response is first mirrored, word for word, and then answered: by a
/// clock change for the two commands that hand over the clock, and by the reply from what the
/// relay knows for all others.
pub proof fn law_requests_are_mirrored_and_answered(
    v: RouterView,
    d: Decoded,
    later: Decoded,
    req: RequestView,
)
    requires
        v.phase is Receiving,
        !req.is_response,
    ensures
        ({
            let command = command_of(req.command);
            let (v1, d1, first) = run_step(v, d, EventView::Request(SendResult::Data(req)));
            let (v2, d2, second) = run_step(v1, later, EventView::Done);
            let answer = respond(v, later, command, REPLY_MAX as int);
            &&& first == ActionView::Mirror(req.raw)
            &&& d1 == d
            &&& v2.phase is Answering
            &&& waits(command) ==> second == ActionView::AsyncAck && d2 == later
            &&& !waits(command) ==> second == ActionView::Reply(answer.words) && d2
                == answer.decoded && v2 == (RouterView {
                phase: Phase::Answering,
                ..answer.router
            })
        }),
{
    let v1 = run_step(v, d, EventView::Request(SendResult::Data(req))).0;
    lemma_respond_ignores_phase(v, v1, later, command_of(req.command));
}

proof fn lemma_respond_ignores_phase(v: RouterView, w: RouterView, d: Decoded, command: Command)
    requires
        w == (RouterView { phase: w.phase, ..v }),
    ensures
        respond(w, d, command, REPLY_MAX as int).words == respond(
            v,
            d,
            command,
            REPLY_MAX as int,
        ).words,
        respond(w, d, command, REPLY_MAX as int).decoded == respond(
            v,
            d,
            command,
            REPLY_MAX as int,
        ).decoded,
        respond(w, d, command, REPLY_MAX as int).router == (RouterView {
            phase: w.phase,
            ..respond(v, d, command, REPLY_MAX as int).router
        }),
{
}

/// After an answer that went out, and after a response, the relay is polled and the next request
/// received.
pub proof fn law_relay_is_polled_between_requests(v: RouterView, d: Decoded, event: EventView)
    requires
        expects(v.phase, event),
        event == EventView::Sent(SendResult::Data(())) || (event matches EventView::Request(
            SendResult::Data(req),
        ) && req.is_response),
    ensures
        ({
            let (v1, d1, first) = run_step(v, d, event);
            let (v2, d2, second) = run_step(v1, d1, EventView::Done);
            &&& first == ActionView::PollRelay
            &&& second == ActionView::RecvReq
            &&& v2 == (RouterView { phase: Phase::Receiving, ..v })
            &&& d2 == d
        }),
{
}

/// A reset that the console asks for, at a request or at an answer, gives up the connection; the
/// link is reset, the login done again, and only then the next request received.
pub proof fn law_reset_leads_to_a_new_login(v: RouterView, d: Decoded, event: EventView)
    requires
        expects(v.phase, event),
        event == EventView::Request(SendResult::Reset) || event == EventView::Sent(
            SendResult::Reset,
        ),
    ensures
        ({
            let (v1, d1, first) = run_step(v, d, event);
            let (v2, d2, second) = run_step(v1, d1, EventView::Done);
            let (v3, d3, third) = run_step(v2, d2, EventView::Done);
            &&& first == ActionView::ResetLink
            &&& second == ActionView::Login
            &&& third == ActionView::RecvReq
            &&& v3 == (RouterView { phase: Phase::Receiving, ..disconnected(v) })
            &&& d3 == d
        }),
{
}

/// Something that changes the router: a command that is answered, with what the relay has decoded
/// by then, or a reset.
#[verifier::ext_equal]
pub enum Move {
    Answer { command: Command, decoded: Decoded },
    Reset,
}

/// The router after `m`.
pub open spec fn move_step(v: RouterView, m: Move, room: int) -> RouterView {
    match m {
        Move::Answer { command, decoded } => respond(v, decoded, command, room).router,
        Move::Reset => disconnected(v),
    }
}

/// The router after all of `moves`.
pub open spec fn moves_run(v: RouterView, moves: Seq<Move>, room: int) -> RouterView
    decreases moves.len(),
{
    if moves.len() == 0 {
        v
    } else {
        move_step(moves_run(v, moves.drop_last(), room), moves.last(), room)
    }
}

/// Whether `m` answers `command`.
pub open spec fn answers(m: Move, command: Command) -> bool {
    m matches Move::Answer { command: c, .. } && c == command
}

/// `GetSomeValue` alternates: of two answers to it with no third one between them, one is
/// 0x0200abcd and the other is 0, whatever other commands and resets come between. The first answer
/// of a new router is 0x0200abcd. Answering it changes nothing else.
pub proof fn law_some_value_alternates(
    v: RouterView,
    d: Decoded,
    between: Seq<Move>,
    later: Decoded,
    room: int,
)
    requires
        forall|i: int|
            0 <= i < between.len() ==> !#[trigger] answers(between[i], Command::GetSomeValue),
    ensures
        ({
            let first = respond(v, d, Command::GetSomeValue, room);
            let now = moves_run(first.router, between, room);
            let second = respond(now, later, Command::GetSomeValue, room);
            &&& first.words.len() == 1
            &&& second.words.len() == 1
            &&& (first.words[0] == 0x0200abcd && second.words[0] == 0) || (first.words[0] == 0
                && second.words[0] == 0x0200abcd)
            &&& first.words[0] == 0x0200abcd <==> !v.some_value_high
            &&& first.router == (RouterView { some_value_high: !v.some_value_high, ..v })
            &&& second.router.some_value_high == v.some_value_high
        }),
{
    lemma_value_kept(respond(v, d, Command::GetSomeValue, room).router, between, room);
}

proof fn lemma_value_kept(v: RouterView, moves: Seq<Move>, room: int)
    requires
        forall|i: int| 0 <= i < moves.len() ==> !#[trigger] answers(moves[i], Command::GetSomeValue),
    ensures
        moves_run(v, moves, room).some_value_high == v.some_value_high,
    decreases moves.len(),
{
    if moves.len() > 0 {
        let before = moves.drop_last();
        assert forall|i: int| 0 <= i < before.len() implies !#[trigger] answers(
            before[i],
            Command::GetSomeValue,
        ) by {
            assert(!answers(moves[i], Command::GetSomeValue));
        }
        assert(!answers(moves[moves.len() - 1], Command::GetSomeValue));
        lemma_value_kept(v, before, room);
    }
}

/// Whether `command` polls for the connection.
pub open spec fn polls_connection(command: Command) -> bool {
    command == Command::IsConnecting || command == Command::FinishConnecting
}

/// Whether `m` is a poll for the connection that finds a partner present.
pub open spec fn polls_partner(m: Move) -> bool {
    m matches Move::Answer { command, decoded } && polls_connection(command) && decoded.peer is Some
}

/// Whether `m` gives up the connection.
pub open spec fn disconnects(m: Move) -> bool {
    m is Reset || answers(m, Command::Connect)
}

/// How many of `moves` are polls that find a partner present.
pub open spec fn partner_polls(moves: Seq<Move>) -> nat
    decreases moves.len(),
{
    if moves.len() == 0 {
        0
    } else {
        partner_polls(moves.drop_last()) + if polls_partner(moves.last()) {
            1nat
        } else {
            0nat
        }
    }
}

/// From a router with no connection, as it is when new, after a reset and after `Connect`, the
/// first three polls that find a partner are answered with "still connecting", and every later one
/// with the id of the partner that is there by then. Other commands, and polls that find nobody,
/// may come between.
pub proof fn law_connecting_takes_three_polls(
    v: RouterView,
    earlier: Seq<Move>,
    d: Decoded,
    poll: Command,
    room: int,
)
    requires
        v == disconnected(v),
        forall|i: int| 0 <= i < earlier.len() ==> !#[trigger] disconnects(earlier[i]),
        d.peer is Some,
        polls_connection(poll),
    ensures
        respond(moves_run(v, earlier, room), d, poll, room).words == seq![
            if partner_polls(earlier) < 3 {
                0x01000000u32
            } else {
                d.peer->0.id
            },
        ],
{
    lemma_polls(v, earlier, room);
}

/// A new router, one after a reset and one that has answered `Connect` have no connection.
pub proof fn law_connections_start_over(v: RouterView, d: Decoded, room: int)
    ensures
        respond(v, d, Command::Connect, room).router == disconnected(v),
        move_step(v, Move::Reset, room) == disconnected(v),
        restarted(v) == disconnected(restarted(v)),
        disconnected(disconnected(v)) == disconnected(v),
        !disconnected(v).connected,
        disconnected(v).connecting_polls == 0,
        disconnected(v).some_value_high == v.some_value_high,
        disconnected(v).phase == v.phase,
        respond(v, d, Command::Connect, room).words.len() == 0,
        respond(v, d, Command::Connect, room).decoded == d,
{
}

proof fn lemma_polls(v: RouterView, moves: Seq<Move>, room: int)
    requires
        v == disconnected(v),
        forall|i: int| 0 <= i < moves.len() ==> !#[trigger] disconnects(moves[i]),
    ensures
        ({
            let now = moves_run(v, moves, room);
            let n = partner_polls(moves);
            &&& now.connected <==> n > 3
            &&& now.connecting_polls == (if n < 3 {
                n as int
            } else {
                3
            })
        }),
    decreases moves.len(),
{
    if moves.len() > 0 {
        let before = moves.drop_last();
        assert forall|i: int| 0 <= i < before.len() implies !#[trigger] disconnects(before[i]) by {
            assert(!disconnects(moves[i]));
        }
        assert(!disconnects(moves[moves.len() - 1]));
        lemma_polls(v, before, room);
    }
}

/// With no partner and no slot waiting the adapter is on its own, and says so: finding partners,
/// polling for a connection and receiving data are all answered with no words.
pub proof fn law_alone_means_empty_answers(v: RouterView, d: Decoded, command: Command, room: int)
    requires
        d.peer is None,
        d.slot is None,
        command == Command::BroadcastReadPoll || command == Command::BroadcastReadEnd
            || polls_connection(command) || command == Command::ReceiveData || command
            == Command::ReceiveDataAndWaitResponse,
    ensures
        respond(v, d, command, room) == (Answer { router: v, decoded: d, words: Seq::empty() }),
{
}

/// Finding partners lists one partner or none: the reply has seven words or no word.
pub proof fn law_partner_lists_are_whole(v: RouterView, relay: &Relay, command: Command, room: int)
    requires
        relay.wf(),
        command == Command::BroadcastReadPoll || command == Command::BroadcastReadEnd,
    ensures
        ({
            let n = respond(v, relay@.decoded, command, room).words.len();
            n == 0 || n == 7
        }),
{
    crate::relay::law_decoded_sizes(relay);
}

/// Whether `command` is answered by a plain acknowledgement.
pub open spec fn is_plain(command: Command) -> bool {
    match command {
        Command::GetSomeValue
        | Command::Unknown
        | Command::BroadcastReadPoll
        | Command::BroadcastReadEnd
        | Command::Connect
        | Command::IsConnecting
        | Command::FinishConnecting
        | Command::ReceiveData
        | Command::ReceiveDataAndWaitResponse => false,
        _ => true,
    }
}

/// The control commands always succeed: they are acknowledged with no words and change nothing,
/// partner or not.
pub proof fn law_plain_commands_are_acknowledged(
    v: RouterView,
    d: Decoded,
    command: Command,
    room: int,
)
    requires
        is_plain(command),
    ensures
        respond(v, d, command, room) == (Answer { router: v, decoded: d, words: Seq::empty() }),
{
}

/// All commands are control commands in this sense but nine.
pub proof fn law_nine_commands_are_not_plain(command: Command)
    ensures
        !is_plain(command) <==> command == Command::GetSomeValue || command == Command::Unknown
            || command == Command::BroadcastReadPoll || command == Command::BroadcastReadEnd
            || command == Command::Connect || command == Command::IsConnecting || command
            == Command::FinishConnecting || command == Command::ReceiveData || command
            == Command::ReceiveDataAndWaitResponse,
{
}

/// `Unknown` is answered with 0xff in every state, and changes nothing.
pub proof fn law_unknown_is_always_answered_alike(v: RouterView, d: Decoded, room: int)
    ensures
        respond(v, d, Command::Unknown, room) == (Answer {
            router: v,
            decoded: d,
            words: seq![0x000000ffu32],
        }),
{
}

/// What holds of every router: at most three polls are counted, and a connection stands only once
/// all three are.
pub open spec fn connection_inv(v: RouterView) -> bool {
    &&& v.connecting_polls <= CONNECT_POLLS
    &&& v.connected ==> v.connecting_polls == CONNECT_POLLS
}

/// Every turn of the router, and every answer, keeps the connection's invariant.
pub proof fn law_connection_inv_is_kept(
    v: RouterView,
    d: Decoded,
    event: EventView,
    command: Command,
    room: int,
)
    requires
        connection_inv(v),
    ensures
        connection_inv(run_step(v, d, event).0),
        connection_inv(respond(v, d, command, room).router),
{
}

/// A partner that the relay announces is the partner that the console finds: the reply to both
/// commands that ask for partners is the announced id and beacon, as often as they are asked, given
/// room for all seven words.
pub proof fn law_announced_peer_is_found(
    r: RelayView,
    id: u32,
    beacon: Seq<u32>,
    v: RouterView,
    command: Command,
    room: int,
)
    requires
        crate::relay::at_sync(r),
        beacon.len() == 6,
        command == Command::BroadcastReadPoll || command == Command::BroadcastReadEnd,
        room >= 7,
    ensures
        ({
            let after = crate::relay::relay_run(
                r,
                crate::relay::frame(
                    crate::relay::T_PEER,
                    crate::words::words_bytes(seq![id] + beacon),
                ),
            ).0;
            let answer = respond(v, after.decoded, command, room);
            &&& answer.words == seq![id] + beacon
            &&& answer.router == v
            &&& answer.decoded == after.decoded
        }),
{
    crate::relay::law_announced_peer_is_listed(r, id, beacon);
}

/// Asking for partners, by either command, lists the partner that is present, id first, or nobody;
/// with room for less than that, nobody. It changes nothing.
pub proof fn law_present_partner_is_listed(v: RouterView, d: Decoded, command: Command, room: int)
    requires
        command == Command::BroadcastReadPoll || command == Command::BroadcastReadEnd,
    ensures
        ({
            let answer = respond(v, d, command, room);
            &&& d.peer matches Some(p) ==> room >= 7 ==> answer.words.len() == 1 + p.beacon.len()
                && answer.words.first() == p.id && answer.words.skip(1) == p.beacon
            &&& d.peer is None ==> answer.words.len() == 0
            &&& room < 7 ==> answer.words.len() == 0
            &&& answer.router == v
            &&& answer.decoded == d
        }),
{
}

/// A slot that the relay brings is handed to the console once, as far as the reply can hold it,
/// whichever of the two commands asks: the first gets its leading words, the next gets none.
pub proof fn law_slot_is_received_once(
    r: RelayView,
    ws: Seq<u32>,
    v: RouterView,
    command: Command,
    room: int,
    next: Command,
    next_room: int,
)
    requires
        crate::relay::at_sync(r),
        ws.len() <= 14,
        command == Command::ReceiveData || command == Command::ReceiveDataAndWaitResponse,
        next == Command::ReceiveData || next == Command::ReceiveDataAndWaitResponse,
        room >= 0,
        next_room >= 0,
    ensures
        ({
            let after = crate::relay::relay_run(
                r,
                crate::relay::frame(crate::relay::T_RECV_SLOT, crate::words::words_bytes(ws)),
            ).0;
            let first = respond(v, after.decoded, command, room);
            let second = respond(first.router, first.decoded, next, next_room);
            &&& first.words == ws.take(vstd::math::min(ws.len() as int, room))
            &&& first.decoded.slot is None
            &&& second.words == Seq::<u32>::empty()
            &&& second.decoded == first.decoded
        }),
{
    crate::relay::law_sent_slot_is_taken(r, ws, room);
}

/// The two commands that receive data hand over the slot that waits, as far as there is room for
/// it, and take it from the relay. They leave the partner and the router alone.
pub proof fn law_waiting_slot_is_handed_over(v: RouterView, d: Decoded, command: Command, room: int)
    requires
        command == Command::ReceiveData || command == Command::ReceiveDataAndWaitResponse,
        room >= 0,
    ensures
        ({
            let answer = respond(v, d, command, room);
            &&& d.slot matches Some(ws) ==> {
                &&& answer.words.is_prefix_of(ws)
                &&& ws.len() <= room ==> answer.words == ws
                &&& ws.len() > room ==> answer.words.len() == room
            }
            &&& d.slot is None ==> answer.words.len() == 0
            &&& answer.decoded == (Decoded { slot: None, peer: d.peer })
            &&& answer.router == v
        }),
{
}

/// Commands that come in pairs are answered alike: the two that ask for partners, the two that poll
/// for the connection, and the two that receive data.
pub proof fn law_paired_commands_are_answered_alike(v: RouterView, d: Decoded, room: int)
    ensures
        respond(v, d, Command::BroadcastReadPoll, room) == respond(
            v,
            d,
            Command::BroadcastReadEnd,
            room,
        ),
        respond(v, d, Command::IsConnecting, room) == respond(
            v,
            d,
            Command::FinishConnecting,
            room,
        ),
        respond(v, d, Command::ReceiveData, room) == respond(
            v,
            d,
            Command::ReceiveDataAndWaitResponse,
            room,
        ),
{
}

/// What no answer changes: the phase and the partner, ever; the slot, unless data is received; the
/// alternating value, unless it is asked for; the connection, unless it is asked for or polled.
pub proof fn law_answers_change_only_their_own(v: RouterView, d: Decoded, command: Command, room: int)
    ensures
        ({
            let answer = respond(v, d, command, room);
            &&& answer.router.phase == v.phase
            &&& answer.decoded.peer == d.peer
            &&& answer.decoded.slot == d.slot || command == Command::ReceiveData || command
                == Command::ReceiveDataAndWaitResponse
            &&& answer.router.some_value_high == v.some_value_high || command
                == Command::GetSomeValue
            &&& (answer.router.connected == v.connected && answer.router.connecting_polls
                == v.connecting_polls) || command == Command::Connect || command
                == Command::IsConnecting || command == Command::FinishConnecting
        }),
{
}

/// With nobody there, a poll for the connection gets no words and counts for nothing.
pub proof fn law_polls_without_a_partner_do_not_count(
    v: RouterView,
    d: Decoded,
    command: Command,
    room: int,
)
    requires
        d.peer is None,
        command == Command::IsConnecting || command == Command::FinishConnecting,
    ensures
        respond(v, d, command, room) == (Answer { router: v, decoded: d, words: Seq::empty() }),
{
}

/// Once a poll has been answered with a partner's id, the connection stands: until it is given up,
/// every poll is answered at once with the id of the partner that is there by then, even if nobody
/// was there in between.
pub proof fn law_connection_stands(
    v: RouterView,
    earlier: Seq<Move>,
    d: Decoded,
    poll: Command,
    between: Seq<Move>,
    later: Decoded,
    again: Command,
    room: int,
)
    requires
        v == disconnected(v),
        forall|i: int| 0 <= i < earlier.len() ==> !#[trigger] disconnects(earlier[i]),
        forall|i: int| 0 <= i < between.len() ==> !#[trigger] disconnects(between[i]),
        d.peer is Some,
        poll == Command::IsConnecting || poll == Command::FinishConnecting,
        partner_polls(earlier) >= 3,
        later.peer is Some,
        again == Command::IsConnecting || again == Command::FinishConnecting,
    ensures
        ({
            let first = respond(moves_run(v, earlier, room), d, poll, room);
            let second = respond(moves_run(first.router, between, room), later, again, room);
            &&& first.words == seq![d.peer->0.id]
            &&& second.words == seq![later.peer->0.id]
        }),
{
    lemma_polls(v, earlier, room);
    lemma_stays_connected(
        respond(moves_run(v, earlier, room), d, poll, room).router,
        between,
        room,
    );
}

proof fn lemma_stays_connected(v: RouterView, moves: Seq<Move>, room: int)
    requires
        v.connected,
        forall|i: int| 0 <= i < moves.len() ==> !#[trigger] disconnects(moves[i]),
    ensures
        moves_run(v, moves, room).connected,
    decreases moves.len(),
{
    if moves.len() > 0 {
        let before = moves.drop_last();
        assert forall|i: int| 0 <= i < before.len() implies !#[trigger] disconnects(before[i]) by {
            assert(!disconnects(moves[i]));
        }
        assert(!disconnects(moves[moves.len() - 1]));
        lemma_stays_connected(v, before, room);
    }
}

/// What a request with each code brings the console, `later` being what the relay has decoded when
/// the request has been mirrored. The polls for a connection have laws of their own.
pub proof fn law_replies_by_code(v: RouterView, d: Decoded, later: Decoded, req: RequestView)
    requires
        v.phase is Receiving,
        !req.is_response,
        req.command != 0x20 && req.command != 0x21,
    ensures
        ({
            let v1 = run_step(v, d, EventView::Request(SendResult::Data(req))).0;
            let (v2, d2, second) = run_step(v1, later, EventView::Done);
            let code = req.command;
            let receives = code == 0x26 || code == 0x28;
            &&& code == 0x11 ==> second == ActionView::Reply(seq![0x000000ffu32])
            &&& code == 0x13 ==> second == ActionView::Reply(
                seq![
                    if v.some_value_high {
                        0u32
                    } else {
                        0x0200abcdu32
                    },
                ],
            )
            &&& code == 0x1d || code == 0x1e ==> second == ActionView::Reply(
                match later.peer {
                    Some(p) => seq![p.id] + p.beacon,
                    None => Seq::empty(),
                },
            )
            &&& receives ==> second == ActionView::Reply(
                match later.slot {
                    Some(ws) => ws.take(vstd::math::min(ws.len() as int, 8)),
                    None => Seq::empty(),
                },
            )
            &&& code == 0x25 || code == 0x27 <==> second == ActionView::AsyncAck
            &&& code != 0x11 && code != 0x13 && code != 0x1d && code != 0x1e && !receives && code
                != 0x25 && code != 0x27 ==> second == ActionView::Reply(Seq::empty())
            &&& d2 == (if receives {
                Decoded { slot: None, peer: later.peer }
            } else {
                later
            })
            &&& v2 == (RouterView {
                some_value_high: v.some_value_high != (code == 0x13),
                connecting_polls: if code == 0x1f {
                    0
                } else {
                    v.connecting_polls
                },
                connected: v.connected && code != 0x1f,
                phase: Phase::Answering,
            })
        }),
{
}

/// A poll for the connection, by either code, with the words it gets and what it does to the
/// router: three times "still connecting" while no connection stands, and the partner's id from
/// then on.
pub proof fn law_poll_replies_by_code(v: RouterView, d: Decoded, later: Decoded, req: RequestView)
    requires
        v.phase is Receiving,
        !req.is_response,
        req.command == 0x20 || req.command == 0x21,
    ensures
        ({
            let v1 = run_step(v, d, EventView::Request(SendResult::Data(req))).0;
            let (v2, d2, second) = run_step(v1, later, EventView::Done);
            let still = !v.connected && v.connecting_polls < 3;
            &&& later.peer is None ==> second == ActionView::Reply(Seq::empty())
            &&& later.peer matches Some(p) ==> second == ActionView::Reply(
                seq![
                    if still {
                        0x01000000u32
                    } else {
                        p.id
                    },
                ],
            )
            &&& d2 == later
            &&& v2.phase is Answering
            &&& v2.some_value_high == v.some_value_high
            &&& v2.connecting_polls == v.connecting_polls + (if later.peer is Some && still {
                1int
            } else {
                0
            })
            &&& v2.connected == (v.connected || (later.peer is Some && !still))
        }),
{
}

/// A new router first resets the link, then logs in, and then receives requests, without a
/// connection.
pub proof fn law_start_leads_to_a_login(v: RouterView, d: Decoded)
    requires
        v.phase is Off,
    ensures
        ({
            let (v1, d1, first) = run_step(v, d, EventView::Done);
            let (v2, d2, second) = run_step(v1, d1, EventView::Done);
            let (v3, d3, third) = run_step(v2, d2, EventView::Done);
            &&& first == ActionView::ResetLink
            &&& second == ActionView::Login
            &&& third == ActionView::RecvReq
            &&& v3 == (RouterView {
                connecting_polls: 0,
                connected: false,
                phase: Phase::Receiving,
                some_value_high: v.some_value_high,
            })
            &&& d3 == d
        }),
{
}

/// A reply never outgrows its buffer.
pub proof fn law_replies_fit(v: RouterView, relay: &Relay, command: Command, room: int)
    requires
        relay.wf(),
        room >= 0,
        needs_a_word(relay@.decoded, command) ==> room >= 1,
    ensures
        respond(v, relay@.decoded, command, room).words.len() <= room,
{
    crate::relay::law_decoded_sizes(relay);
}

} // verus!
