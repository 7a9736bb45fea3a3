//! Phases of the four-step pipeline, reported to a progress callback.
use vstd::prelude::*;

verus! {

/// Current phase of the four-step model pipeline.
///
/// Phases inside the feedback loop (Distribution, ModeChoice,
/// Assignment) are reported once per iteration.
#[derive(Debug, Clone, Copy, PartialEq, Eq, Structural)]
pub enum PipelinePhase {
    /// Input validation before any computation starts.
    Preflight,
    /// Trip generation (step 1, runs once).
    Generation,
    /// Trip distribution via gravity model (step 2).
    Distribution,
    /// Mode choice split (step 3).
    ModeChoice,
    /// Traffic assignment (step 4).
    Assignment,
}

/// The snake-case name of a phase.
pub open spec fn phase_name(p: PipelinePhase) -> Seq<char> {
    match p {
        PipelinePhase::Preflight => "preflight"@,
        PipelinePhase::Generation => "generation"@,
        PipelinePhase::Distribution => "distribution"@,
        PipelinePhase::ModeChoice => "mode_choice"@,
        PipelinePhase::Assignment => "assignment"@,
    }
}

/// Different phases have different names.
pub proof fn law_phase_names_distinct(a: PipelinePhase, b: PipelinePhase)
    ensures
        phase_name(a) == phase_name(b) <==> a == b,
{
    reveal_strlit("preflight");
    reveal_strlit("generation");
    reveal_strlit("distribution");
    reveal_strlit("mode_choice");
    reveal_strlit("assignment");
    if phase_name(a) == phase_name(b) {
        assert(phase_name(a).len() == phase_name(b).len());
        assert(phase_name(a)[0] == phase_name(b)[0]);
    }
}

impl PipelinePhase {
    /// The snake-case name of the phase, e.g. `"mode_choice"`.
    pub fn to_string(&self) -> (s: String)
        ensures
            s@ == phase_name(*self),
    {
        let name: &str = match self {
            PipelinePhase::Preflight => "preflight",
            PipelinePhase::Generation => "generation",
            PipelinePhase::Distribution => "distribution",
            PipelinePhase::ModeChoice => "mode_choice",
            PipelinePhase::Assignment => "assignment",
        };
        name.to_string()
    }
}

/// Progress event passed to the progress callback.
///
/// `feedback_iter` and `feedback_total` are both 0 for phases that run
/// outside the feedback loop (Preflight, Generation).
#[derive(Debug, Clone, Copy, PartialEq, Eq, Structural)]
pub struct ProgressEvent {
    /// Phase that is about to start.
    pub phase: PipelinePhase,
    /// Feedback iteration index (1-based). 0 outside the feedback loop.
    pub feedback_iter: usize,
    /// Total number of feedback iterations configured. 0 outside the loop.
    pub feedback_total: usize,
}

impl ProgressEvent {
    /// The event of a phase that runs outside the feedback loop.
    pub fn single(phase: PipelinePhase) -> (e: Self)
        ensures
            e == (ProgressEvent { phase, feedback_iter: 0, feedback_total: 0 }),
    {
        ProgressEvent { phase, feedback_iter: 0, feedback_total: 0 }
    }

    /// The event of a phase in feedback iteration `iter` of `total`.
    pub fn feedback(phase: PipelinePhase, iter: usize, total: usize) -> (e: Self)
        ensures
            e == (ProgressEvent { phase, feedback_iter: iter, feedback_total: total }),
    {
        ProgressEvent { phase, feedback_iter: iter, feedback_total: total }
    }
}


/// The number of feedback iterations that run: the configured number,
/// and at least one.
pub open spec fn feedback_rounds(feedback_iterations: usize) -> nat {
    if feedback_iterations == 0 {
        1
    } else {
        feedback_iterations as nat
    }
}

/// The phase of step `c` (0, 1 or 2) of a feedback iteration.
pub open spec fn loop_phase(c: int) -> PipelinePhase {
    if c == 0 {
        PipelinePhase::Distribution
    } else if c == 1 {
        PipelinePhase::ModeChoice
    } else {
        PipelinePhase::Assignment
    }
}

/// Event `i` of a run with `total` feedback iterations: preflight,
/// generation, then distribution, mode choice and assignment of each
/// iteration in turn, numbered from 1.
pub open spec fn scheduled_event(i: int, total: nat) -> ProgressEvent {
    if i == 0 {
        ProgressEvent { phase: PipelinePhase::Preflight, feedback_iter: 0, feedback_total: 0 }
    } else if i == 1 {
        ProgressEvent { phase: PipelinePhase::Generation, feedback_iter: 0, feedback_total: 0 }
    } else {
        ProgressEvent {
            phase: loop_phase((i - 2) % 3),
            feedback_iter: ((i - 2) / 3 + 1) as usize,
            feedback_total: total as usize,
        }
    }
}

/// Feedback iteration `k` (from 0) of `total` is reported at positions
/// `2 + 3k`, `3 + 3k` and `4 + 3k` of `events`: distribution, then mode
/// choice, then assignment, each numbered `k + 1` of `total`.
pub open spec fn iteration_reported(events: Seq<ProgressEvent>, k: int, total: nat) -> bool {
    &&& events[2 + 3 * k] == (ProgressEvent {
        phase: PipelinePhase::Distribution,
        feedback_iter: (k + 1) as usize,
        feedback_total: total as usize,
    })
    &&& events[3 + 3 * k] == (ProgressEvent {
        phase: PipelinePhase::ModeChoice,
        feedback_iter: (k + 1) as usize,
        feedback_total: total as usize,
    })
    &&& events[4 + 3 * k] == (ProgressEvent {
        phase: PipelinePhase::Assignment,
        feedback_iter: (k + 1) as usize,
        feedback_total: total as usize,
    })
}

/// A run with `total` feedback iterations reports preflight first,
/// generation second, and then, for every iteration `k` in turn,
/// distribution, mode choice and assignment, numbered `k + 1` of `total`.
pub proof fn law_feedback_iteration_order(total: nat, k: int)
    requires
        0 <= k < total,
    ensures
        scheduled_event(0, total).phase == PipelinePhase::Preflight,
        scheduled_event(1, total).phase == PipelinePhase::Generation,
        iteration_reported(Seq::new(3 * total + 2, |i: int| scheduled_event(i, total)), k, total),
{
    assert((2 + 3 * k - 2) % 3 == 0 && (2 + 3 * k - 2) / 3 == k);
    assert((3 + 3 * k - 2) % 3 == 1 && (3 + 3 * k - 2) / 3 == k);
    assert((4 + 3 * k - 2) % 3 == 2 && (4 + 3 * k - 2) / 3 == k);
}

/// The progress events that a complete run of the pipeline reports, in
/// order, when `feedback_iterations` iterations are configured.
pub fn progress_events(feedback_iterations: usize) -> (events: Vec<ProgressEvent>)
    requires
        3 * feedback_rounds(feedback_iterations) + 2 <= usize::MAX,
    ensures
        events@ == Seq::new(
            3 * feedback_rounds(feedback_iterations) + 2,
            |i: int| scheduled_event(i, feedback_rounds(feedback_iterations)),
        ),
        events@.len() == 3 * feedback_rounds(feedback_iterations) + 2,
        feedback_iterations > 0 ==> events@.len() == 3 * feedback_iterations + 2,
        feedback_iterations == 0 ==> events@.len() == 5,
        events@[0] == (ProgressEvent { phase: PipelinePhase::Preflight, feedback_iter: 0, feedback_total: 0 }),
        events@[1] == (ProgressEvent { phase: PipelinePhase::Generation, feedback_iter: 0, feedback_total: 0 }),
        forall|k: int|
            0 <= k < feedback_rounds(feedback_iterations) ==> iteration_reported(
                events@,
                k,
                feedback_rounds(feedback_iterations),
            ),
{
    let total: usize = if feedback_iterations == 0 {
        1
    } else {
        feedback_iterations
    };
    let ghost t = feedback_rounds(feedback_iterations);
    let mut events: Vec<ProgressEvent> = Vec::new();
    events.push(ProgressEvent::single(PipelinePhase::Preflight));
    events.push(ProgressEvent::single(PipelinePhase::Generation));
    assert(events@ =~= Seq::new(2, |i: int| scheduled_event(i, t)));
    let mut done: usize = 0;
    while done < total
        invariant
            total == t,
            3 * t + 2 <= usize::MAX,
            done <= total,
            events@ == Seq::new((3 * done + 2) as nat, |i: int| scheduled_event(i, t)),
        decreases total - done,
    {
        let iter = done + 1;
        events.push(ProgressEvent::feedback(PipelinePhase::Distribution, iter, total));
        events.push(ProgressEvent::feedback(PipelinePhase::ModeChoice, iter, total));
        events.push(ProgressEvent::feedback(PipelinePhase::Assignment, iter, total));
        proof {
            let b = 3 * done + 2;
            assert((b - 2) % 3 == 0 && (b - 2) / 3 == done);
            assert((b + 1 - 2) % 3 == 1 && (b + 1 - 2) / 3 == done);
            assert((b + 2 - 2) % 3 == 2 && (b + 2 - 2) / 3 == done);
            assert(events@ =~= Seq::new((3 * iter + 2) as nat, |i: int| scheduled_event(i, t)));
        }
        done = iter;
    }
    proof {
        assert forall|k: int| 0 <= k < t implies iteration_reported(events@, k, t) by {
            law_feedback_iteration_order(t, k);
        }
    }
    events
}

} // verus!
