//! The order in which the stages of the receiving pipeline come up and go
//! down.  The orchestrator decides; the caller starts and stops the stages
//! and reports whether the delay buffer is primed.

use vstd::prelude::*;

verus! {

/// A stage of the receiving pipeline.
#[derive(Clone, Copy, Debug, PartialEq, Eq, Structural)]
pub enum Stage {
    Receiver,
    JitterBuffer,
    Decoder,
    Producer,
    Playback,
}

/// How many stages there are.
pub const STAGE_COUNT: usize = 5;

/// What the caller has to do next.
#[derive(Clone, Copy, Debug, PartialEq, Eq, Structural)]
pub enum Directive {
    /// Start this stage.
    Start(Stage),
    /// Stop this stage.
    Stop(Stage),
    /// Ask again once the delay buffer has filled further.
    AwaitPrimeFill,
    /// Every stage runs, or every stage has stopped: nothing is left to do.
    Settled,
}

/// The stage that comes up as number `i`, counted from zero.
pub open spec fn stage_at(i: int) -> Stage {
    if i == 0 {
        Stage::Receiver
    } else if i == 1 {
        Stage::JitterBuffer
    } else if i == 2 {
        Stage::Decoder
    } else if i == 3 {
        Stage::Producer
    } else {
        Stage::Playback
    }
}

/// The mathematical state of an [`Orchestrator`]: the first `running`
/// stages run, and whether shutdown was asked for.
pub struct OrchestratorView {
    pub running: nat,
    pub shutting_down: bool,
}

/// The directive owed in a state.  While coming up, the next stage in
/// order is started, playback only once the delay buffer is primed; while
/// going down, the stage started last is stopped.
pub open spec fn directive_for(v: OrchestratorView, primed: bool) -> Directive {
    if v.shutting_down {
        if v.running > 0 {
            Directive::Stop(stage_at(v.running - 1))
        } else {
            Directive::Settled
        }
    } else if v.running < 4 {
        Directive::Start(stage_at(v.running as int))
    } else if v.running == 4 {
        if primed {
            Directive::Start(Stage::Playback)
        } else {
            Directive::AwaitPrimeFill
        }
    } else {
        Directive::Settled
    }
}

/// The state once the directive owed was carried out.
pub open spec fn after_directive(v: OrchestratorView, primed: bool) -> OrchestratorView {
    match directive_for(v, primed) {
        Directive::Start(_) => OrchestratorView { running: v.running + 1, ..v },
        Directive::Stop(_) => OrchestratorView { running: (v.running - 1) as nat, ..v },
        _ => v,
    }
}

/// Decides the order of startup and shutdown.
pub struct Orchestrator {
    running: usize,
    shutting_down: bool,
}

impl View for Orchestrator {
    type V = OrchestratorView;

    closed spec fn view(&self) -> OrchestratorView {
        OrchestratorView { running: self.running as nat, shutting_down: self.shutting_down }
    }
}

/// The stage that comes up as number `i`, counted from zero.
fn stage_number(i: usize) -> (stage: Stage)
    ensures
        stage == stage_at(i as int),
{
    if i == 0 {
        Stage::Receiver
    } else if i == 1 {
        Stage::JitterBuffer
    } else if i == 2 {
        Stage::Decoder
    } else if i == 3 {
        Stage::Producer
    } else {
        Stage::Playback
    }
}

impl Orchestrator {
    /// Whether the invariant holds: no more stages run than there are.
    pub open spec fn wf(&self) -> bool {
        self@.running <= 5
    }

    /// An orchestrator with no stage running.
    pub fn new() -> (orchestrator: Orchestrator)
        ensures
            orchestrator.wf(),
            orchestrator@ == (OrchestratorView { running: 0, shutting_down: false }),
    {
        Orchestrator { running: 0, shutting_down: false }
    }

    /// How many stages run.
    pub fn running(&self) -> (count: usize)
        ensures
            count == self@.running,
    {
        self.running
    }

    /// Asks for shutdown: from now on the stages are stopped, last started first.
    pub fn shutdown(&mut self)
        ensures
            final(self)@ == (OrchestratorView { shutting_down: true, ..old(self)@ }),
    {
        self.shutting_down = true;
    }

    /// The next thing to do, given whether the delay buffer is primed; the
    /// orchestrator counts it as done.
    pub fn advance(&mut self, primed: bool) -> (directive: Directive)
        requires
            old(self).wf(),
        ensures
            final(self).wf(),
            directive == directive_for(old(self)@, primed),
            final(self)@ == after_directive(old(self)@, primed),
            directive == Directive::Start(Stage::Playback) ==> primed,
    {
        if self.shutting_down {
            if self.running > 0 {
                self.running = self.running - 1;
                Directive::Stop(stage_number(self.running))
            } else {
                Directive::Settled
            }
        } else if self.running < 4 {
            let stage = stage_number(self.running);
            self.running = self.running + 1;
            Directive::Start(stage)
        } else if self.running == 4 {
            if primed {
                self.running = 5;
                Directive::Start(Stage::Playback)
            } else {
                Directive::AwaitPrimeFill
            }
        } else {
            Directive::Settled
        }
    }
}

} // verus!
