use macro_traffic_sim_core::error::SimError;
use macro_traffic_sim_core::gmns::error::GraphError;
use macro_traffic_sim_core::mode_choice::error::ModeChoiceError;
use macro_traffic_sim_core::pipeline::error::{InvalidInputReason, PipelineError};

#[test]
fn graph_error_messages() {
    assert_eq!(GraphError::NodeNotFound { node_id: 42 }.to_string(), "node not found: 42");
    assert_eq!(
        GraphError::DuplicateId { entity: "link".to_string(), id: 7 }.to_string(),
        "duplicate link id: 7"
    );
    assert_eq!(GraphError::ZoneNotFound { zone_id: 10 }.to_string(), "zone not found: 10");
    assert_eq!(GraphError::LinkNotFound { link_id: 0 }.to_string(), "link not found: 0");
    assert_eq!(
        GraphError::InvalidTopology("dangling link".to_string()).to_string(),
        "invalid topology: dangling link"
    );
}

#[test]
fn graph_error_ids_print_as_display_does() {
    for id in [0i64, 9, 10, -5, 1234567890, i64::MAX, i64::MIN] {
        assert_eq!(
            GraphError::NodeNotFound { node_id: id }.to_string(),
            format!("node not found: {}", id)
        );
    }
}

#[test]
fn sim_error_prefixes_the_step() {
    let sim: SimError = GraphError::NodeNotFound { node_id: 99 }.into();
    assert_eq!(sim.to_string(), "graph error: node not found: 99");
    let sim: SimError = PipelineError::InvalidConfig("bad param".to_string()).into();
    assert_eq!(sim.to_string(), "pipeline error: invalid config: bad param");
    let sim: SimError = ModeChoiceError::NoModes.into();
    assert_eq!(sim.to_string(), "mode choice error: no mode utilities defined");
}

#[test]
fn pipeline_error_messages() {
    let err = PipelineError::MissingResult("no AUTO OD matrix".to_string());
    assert_eq!(err.to_string(), "missing result: no AUTO OD matrix");
    let err = PipelineError::InvalidConfig("feedback_iterations must be > 0".to_string());
    assert_eq!(err.to_string(), "invalid config: feedback_iterations must be > 0");
    let err = PipelineError::InvalidInput(InvalidInputReason::NoZones);
    assert_eq!(err.to_string(), "invalid input: no zones provided: at least one zone is required");
}

#[test]
fn invalid_input_reason_messages() {
    let reason = InvalidInputReason::NoZones;
    assert_eq!(reason.to_string(), "no zones provided: at least one zone is required");

    let reason = InvalidInputReason::NoCentroids { zone_count: 3, missing_ids: vec![1, 2, 3] };
    let msg = reason.to_string();
    assert!(msg.contains("3 zones provided"));
    assert!(msg.contains("[1, 2, 3]"));
    assert_eq!(
        msg,
        "no zone centroids found in network: 3 zones provided but none have a corresponding \
         centroid node (zone_id on a network node); missing zone IDs: [1, 2, 3]"
    );

    let reason = InvalidInputReason::DisconnectedComponents { components: vec![vec![1, 2], vec![3, 4]] };
    let msg = reason.to_string();
    assert!(msg.contains("2 disconnected"));
    assert!(msg.contains("[1, 2]"));
    assert!(msg.contains("[3, 4]"));
    assert!(msg.ends_with("components: [[1, 2], [3, 4]]"));

    let reason = InvalidInputReason::ZeroAttributes { zone_ids: vec![] };
    assert!(reason.to_string().ends_with("affected zone IDs: []"));
}

#[test]
fn mode_choice_error_messages() {
    assert_eq!(ModeChoiceError::NoModes.to_string(), "no mode utilities defined");
    assert_eq!(
        ModeChoiceError::MissingSkim("bike".to_string()).to_string(),
        "missing skim data for mode: bike"
    );
}
