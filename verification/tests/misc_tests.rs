use std::time::Duration;

use macro_traffic_sim_core::assignment::frank_wolfe::FrankWolfe;
use macro_traffic_sim_core::assignment::lua_vdf::{
    watchdog_tick, HOOK_INTERVAL, MAX_INSTRUCTIONS_PER_CALL, MEMORY_LIMIT_BYTES,
};
use macro_traffic_sim_core::assignment::msa::Msa;
use macro_traffic_sim_core::config::AssignmentMethodType;
use macro_traffic_sim_core::gmns::defaults::get_link_defaults;
use macro_traffic_sim_core::gmns::types::{AgentType, BoundaryType, ControlType, LinkType};
use macro_traffic_sim_core::od::zone_matrix::ZoneMatrix;
use macro_traffic_sim_core::pipeline::phase::{progress_events, PipelinePhase, ProgressEvent};
use macro_traffic_sim_core::pipeline::timings::PipelineTimings;
use macro_traffic_sim_core::pipeline::union_find::uf_union;
use macro_traffic_sim_core::sorted_ids::insert_sorted_unique;

#[test]
fn link_defaults_table() {
    let d = get_link_defaults(LinkType::Motorway);
    assert_eq!(d.lanes, 4);
    assert_eq!(d.capacity, 2300);
    assert_eq!(d.free_speed, 120);
    assert!(!d.one_way);
    let d = get_link_defaults(LinkType::Cycleway);
    assert_eq!((d.lanes, d.free_speed, d.capacity, d.one_way), (1, 5, 800, true));
    let d = get_link_defaults(LinkType::Connector);
    assert_eq!((d.lanes, d.free_speed, d.capacity), (2, 120, 9999));
    let d = get_link_defaults(LinkType::Undefined);
    assert_eq!((d.lanes, d.free_speed, d.capacity, d.one_way), (1, 30, 800, false));
}

#[test]
fn enum_names() {
    assert_eq!(AgentType::Auto.to_string(), "auto");
    assert_eq!(AgentType::Bike.to_string(), "bike");
    assert_eq!(AgentType::Walk.to_string(), "walk");
    assert_eq!(LinkType::Motorway.to_string(), "motorway");
    assert_eq!(LinkType::Residential.to_string(), "residential");
    assert_eq!(LinkType::Connector.to_string(), "connector");
    assert_eq!(AssignmentMethodType::FrankWolfe.to_string(), "frank_wolfe");
    assert_eq!(AssignmentMethodType::Msa.to_string(), "msa");
    assert_eq!(AssignmentMethodType::GradientProjection.to_string(), "gradient_projection");
    assert_eq!(PipelinePhase::ModeChoice.to_string(), "mode_choice");
    assert_eq!(PipelinePhase::Preflight.to_string(), "preflight");
    assert_eq!(ControlType::NotSignal.to_string(), "not_signal");
    assert_eq!(ControlType::IsSignal.to_string(), "is_signal");
    assert_eq!(BoundaryType::NoBoundary.to_string(), "none");
    assert_eq!(BoundaryType::IncomeOnly.to_string(), "income_only");
}

#[test]
fn progress_event_constructors() {
    let e = ProgressEvent::single(PipelinePhase::Generation);
    assert_eq!(e.phase, PipelinePhase::Generation);
    assert_eq!((e.feedback_iter, e.feedback_total), (0, 0));
    let e = ProgressEvent::feedback(PipelinePhase::Distribution, 2, 5);
    assert_eq!(e.phase, PipelinePhase::Distribution);
    assert_eq!((e.feedback_iter, e.feedback_total), (2, 5));
}

#[test]
fn method_selectors() {
    assert_eq!(FrankWolfe::new(), FrankWolfe::default());
    assert_eq!(Msa::new(), Msa::default());
}

#[test]
fn watchdog_aborts_at_the_budget() {
    assert_eq!(watchdog_tick(0), (HOOK_INTERVAL as u64, false));
    assert_eq!(watchdog_tick(980_000), (990_000, false));
    assert_eq!(watchdog_tick(990_000), (MAX_INSTRUCTIONS_PER_CALL, true));
    assert_eq!(watchdog_tick(2_000_000), (2_010_000, true));
    assert_eq!(MEMORY_LIMIT_BYTES, 64 * 1024 * 1024);
}

#[test]
fn timings_hold_durations() {
    let t = PipelineTimings {
        generation: Duration::from_millis(1),
        distribution: Duration::ZERO,
        mode_choice: Duration::ZERO,
        assignment: Duration::from_secs(2),
        total: Duration::from_secs(3),
    };
    assert_eq!(t.total, Duration::from_secs(3));
}

#[test]
fn sorted_insertion_keeps_order_and_uniqueness() {
    let mut v: Vec<i64> = Vec::new();
    for x in [5, 1, 3, 5, -2, 3] {
        insert_sorted_unique(&mut v, x);
    }
    assert_eq!(v, vec![-2, 1, 3, 5]);
}

#[test]
fn union_by_rank() {
    let mut parent: Vec<usize> = vec![0, 1, 2, 3];
    let mut rank: Vec<usize> = vec![0, 0, 0, 0];
    uf_union(&mut parent, &mut rank, 0, 1);
    assert_eq!(parent, vec![0, 0, 2, 3]);
    assert_eq!(rank, vec![1, 0, 0, 0]);
    uf_union(&mut parent, &mut rank, 2, 1);
    assert_eq!(parent, vec![0, 0, 0, 3]);
    assert_eq!(rank, vec![1, 0, 0, 0]);
    uf_union(&mut parent, &mut rank, 1, 2);
    assert_eq!(parent, vec![0, 0, 0, 3]);
}

#[test]
fn zone_matrix_reads_back_what_was_set() {
    let mut m: ZoneMatrix<i64> = ZoneMatrix::new(vec![10, 20, 30], 0);
    assert_eq!(m.n(), 3);
    assert_eq!(m.data().len(), 9);
    m.set(20, 30, 7);
    assert_eq!(m.get(20, 30), Some(7));
    assert_eq!(m.get(30, 20), Some(0));
    assert_eq!(m.get(99, 20), None);
    m.set(99, 20, 5);
    assert_eq!(m.data().iter().filter(|&&v| v != 0).count(), 1);
    assert_eq!(m.index_of(30), Some(2));
    assert_eq!(m.get_by_index(1, 2), 7);
    m.set_by_index(0, 0, 3);
    assert_eq!(m.get(10, 10), Some(3));
    let d = ZoneMatrix::from_data(vec![1, 2], vec![1, 2, 3, 4]);
    assert_eq!(d.get(2, 1), Some(3));
    let dup: ZoneMatrix<i64> = ZoneMatrix::from_data(vec![5, 5], vec![1, 2, 3, 4]);
    assert_eq!(dup.index_of(5), Some(1));
    assert_eq!(dup.get(5, 5), Some(4));
}

#[test]
fn union_by_rank_cases() {
    let mut parent: Vec<usize> = vec![0, 0, 2];
    let mut rank: Vec<usize> = vec![1, 0, 0];
    // Greater: the root of lower rank goes under the other.
    uf_union(&mut parent, &mut rank, 0, 2);
    assert_eq!(parent, vec![0, 0, 0]);
    assert_eq!(rank, vec![1, 0, 0]);
    // Same set: ranks and roots stay.
    uf_union(&mut parent, &mut rank, 1, 2);
    assert_eq!(rank, vec![1, 0, 0]);
    assert_eq!(parent, vec![0, 0, 0]);
}

#[test]
fn progress_events_follow_the_phases() {
    let events = progress_events(2);
    assert_eq!(events.len(), 8);
    assert_eq!(events[0], ProgressEvent::single(PipelinePhase::Preflight));
    assert_eq!(events[1], ProgressEvent::single(PipelinePhase::Generation));
    assert_eq!(events[2], ProgressEvent::feedback(PipelinePhase::Distribution, 1, 2));
    assert_eq!(events[3], ProgressEvent::feedback(PipelinePhase::ModeChoice, 1, 2));
    assert_eq!(events[4], ProgressEvent::feedback(PipelinePhase::Assignment, 1, 2));
    assert_eq!(events[7], ProgressEvent::feedback(PipelinePhase::Assignment, 2, 2));
    let once = progress_events(0);
    assert_eq!(once.len(), 5);
    assert_eq!(once[2], ProgressEvent::feedback(PipelinePhase::Distribution, 1, 1));
}
