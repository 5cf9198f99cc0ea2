use audio_sync::control::{parse_command, step, Action, Command, Session};
use audio_sync::orchestrator::{Directive, Orchestrator, Stage, STAGE_COUNT};
use audio_sync::utils::username_take;

#[test]
fn parse_command_knows_send_and_exit() {
    assert_eq!(parse_command("send"), Command::Send);
    assert_eq!(parse_command("exit"), Command::Exit);
    assert_eq!(parse_command("Send"), Command::Unknown);
    assert_eq!(parse_command("send "), Command::Unknown);
    assert_eq!(parse_command(""), Command::Unknown);
    assert_eq!(parse_command("audio.start()"), Command::Unknown);
}

#[test]
fn send_twice_starts_one_sender() {
    let mut session = Session::Idle;
    let mut starts = 0;
    for line in ["send", "send", "hello", "send"] {
        let (next, action) = step(session, parse_command(line));
        if action == Action::StartSender {
            starts += 1;
        }
        session = next;
    }
    assert_eq!(starts, 1);
    assert_eq!(session, Session::Sending);
}

#[test]
fn step_covers_every_case() {
    assert_eq!(step(Session::Idle, Command::Send), (Session::Sending, Action::StartSender));
    assert_eq!(step(Session::Idle, Command::Exit), (Session::Stopped, Action::Quit));
    assert_eq!(step(Session::Idle, Command::Unknown), (Session::Idle, Action::Reject));
    assert_eq!(step(Session::Sending, Command::Send), (Session::Sending, Action::Nothing));
    assert_eq!(step(Session::Sending, Command::Exit), (Session::Stopped, Action::Quit));
    assert_eq!(step(Session::Sending, Command::Unknown), (Session::Sending, Action::Reject));
    for command in [Command::Send, Command::Exit, Command::Unknown] {
        assert_eq!(step(Session::Stopped, command), (Session::Stopped, Action::Nothing));
    }
}

#[test]
fn username_take_cleans_the_line() {
    assert_eq!(username_take("mary ann\n"), "mary_ann");
    assert_eq!(username_take("  \n"), "__");
    assert_eq!(username_take("a\nb c"), "ab_c");
    assert_eq!(username_take(""), "");
    assert_eq!(username_take("zoë\r\n"), "zoë\r");
}

#[test]
fn stages_start_in_order_and_playback_waits() {
    let mut o = Orchestrator::new();
    assert_eq!(STAGE_COUNT, 5);
    assert_eq!(o.advance(false), Directive::Start(Stage::Receiver));
    assert_eq!(o.advance(false), Directive::Start(Stage::JitterBuffer));
    assert_eq!(o.advance(true), Directive::Start(Stage::Decoder));
    assert_eq!(o.advance(true), Directive::Start(Stage::Producer));
    assert_eq!(o.advance(false), Directive::AwaitPrimeFill);
    assert_eq!(o.advance(false), Directive::AwaitPrimeFill);
    assert_eq!(o.running(), 4);
    assert_eq!(o.advance(true), Directive::Start(Stage::Playback));
    assert_eq!(o.running(), 5);
    assert_eq!(o.advance(true), Directive::Settled);
}

#[test]
fn stages_stop_in_reverse() {
    let mut o = Orchestrator::new();
    for _ in 0..4 {
        o.advance(false);
    }
    o.advance(true);
    o.shutdown();
    let order =
        [Stage::Playback, Stage::Producer, Stage::Decoder, Stage::JitterBuffer, Stage::Receiver];
    for stage in order {
        assert_eq!(o.advance(true), Directive::Stop(stage));
    }
    assert_eq!(o.advance(true), Directive::Settled);
    assert_eq!(o.running(), 0);
}

#[test]
fn shutdown_during_startup_stops_what_runs() {
    let mut o = Orchestrator::new();
    o.advance(false);
    o.advance(false);
    o.shutdown();
    assert_eq!(o.advance(true), Directive::Stop(Stage::JitterBuffer));
    assert_eq!(o.advance(true), Directive::Stop(Stage::Receiver));
    assert_eq!(o.advance(true), Directive::Settled);
}
