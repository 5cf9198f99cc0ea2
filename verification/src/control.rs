//! The command loop of the sending side as a state machine: what each typed
//! command does to the session, and which action the caller owes.

use vstd::prelude::*;
use vstd::string::StringExecFns;

verus! {

/// A line typed at the prompt.
#[derive(Clone, Copy, Debug, PartialEq, Eq, Structural)]
pub enum Command {
    /// `send`: start streaming.
    Send,
    /// `exit`: leave.
    Exit,
    /// Anything else.
    Unknown,
}

/// Where the session stands.
#[derive(Clone, Copy, Debug, PartialEq, Eq, Structural)]
pub enum Session {
    /// Nothing is being sent.
    Idle,
    /// The sender runs.
    Sending,
    /// `exit` was typed.
    Stopped,
}

/// What the caller has to do after a command.
#[derive(Clone, Copy, Debug, PartialEq, Eq, Structural)]
pub enum Action {
    /// Start the sender.
    StartSender,
    /// Leave the command loop.
    Quit,
    /// Tell the user that the command is not permitted.
    Reject,
    /// Nothing.
    Nothing,
}

/// The command that a trimmed line of input stands for.
pub open spec fn command_of(input: Seq<char>) -> Command {
    if input == "send"@ {
        Command::Send
    } else if input == "exit"@ {
        Command::Exit
    } else {
        Command::Unknown
    }
}

/// Reads a trimmed line of input as a command.
pub fn parse_command(input: &str) -> (command: Command)
    ensures
        command == command_of(input@),
{
    let line = String::from_str(input);
    if line == String::from_str("send") {
        Command::Send
    } else if line == String::from_str("exit") {
        Command::Exit
    } else {
        Command::Unknown
    }
}

/// The session after a command.  `send` starts the sender where none runs
/// and changes nothing where one does; `exit` stops the session for good.
pub open spec fn next_session(session: Session, command: Command) -> Session {
    match (session, command) {
        (Session::Stopped, _) => Session::Stopped,
        (_, Command::Exit) => Session::Stopped,
        (Session::Idle, Command::Send) => Session::Sending,
        (_, _) => session,
    }
}

/// The action owed after a command.
pub open spec fn action_for(session: Session, command: Command) -> Action {
    match (session, command) {
        (Session::Stopped, _) => Action::Nothing,
        (_, Command::Exit) => Action::Quit,
        (Session::Idle, Command::Send) => Action::StartSender,
        (Session::Sending, Command::Send) => Action::Nothing,
        (_, Command::Unknown) => Action::Reject,
    }
}

/// Takes one command: the session that follows, and the action owed.
pub fn step(session: Session, command: Command) -> (outcome: (Session, Action))
    ensures
        outcome.0 == next_session(session, command),
        outcome.1 == action_for(session, command),
{
    match session {
        Session::Stopped => (Session::Stopped, Action::Nothing),
        Session::Idle => match command {
            Command::Exit => (Session::Stopped, Action::Quit),
            Command::Send => (Session::Sending, Action::StartSender),
            Command::Unknown => (Session::Idle, Action::Reject),
        },
        Session::Sending => match command {
            Command::Exit => (Session::Stopped, Action::Quit),
            Command::Send => (Session::Sending, Action::Nothing),
            Command::Unknown => (Session::Sending, Action::Reject),
        },
    }
}

/// The session after a run of commands.
pub open spec fn session_after(session: Session, commands: Seq<Command>) -> Session
    decreases commands.len(),
{
    if commands.len() == 0 {
        session
    } else {
        next_session(session_after(session, commands.drop_last()), commands.last())
    }
}

/// How often a run of commands asks for the sender to be started.
pub open spec fn sender_starts(session: Session, commands: Seq<Command>) -> nat
    decreases commands.len(),
{
    if commands.len() == 0 {
        0
    } else {
        let earlier = sender_starts(session, commands.drop_last());
        if action_for(session_after(session, commands.drop_last()), commands.last())
            == Action::StartSender {
            earlier + 1
        } else {
            earlier
        }
    }
}

/// Startup happens once.  Whatever is typed, and however often `send` is
/// among it, the sender is started at most once: never while it runs, and
/// never after `exit`.
pub proof fn lemma_sender_starts_once(session: Session, commands: Seq<Command>)
    ensures
        sender_starts(session, commands) <= 1,
        session != Session::Idle ==> sender_starts(session, commands) == 0,
        session_after(session, commands) == Session::Idle ==> sender_starts(session, commands)
            == 0,
        session != Session::Idle ==> session_after(session, commands) != Session::Idle,
    decreases commands.len(),
{
    if commands.len() > 0 {
        lemma_sender_starts_once(session, commands.drop_last());
    }
}

} // verus!
