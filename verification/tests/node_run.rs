use route_rs::node_run::{
    check_node_run_inputs, lateral_index, plan_node_run, takes_new_lateral, zero_fills_upstream,
    NodeRunError, NodeRunPlan,
};

#[test]
fn no_input_means_idle() {
    assert!(check_node_run_inputs(0, 0, 288));
    assert_eq!(plan_node_run(0, 0, 288), Ok(NodeRunPlan::Idle));
}

#[test]
fn single_lateral_value_is_refused() {
    assert_eq!(plan_node_run(288, 1, 288), Err(NodeRunError::SingleExternalFlow));
    assert_eq!(plan_node_run(0, 1, 288), Err(NodeRunError::SingleExternalFlow));
}

#[test]
fn hourly_laterals_upsampled_to_five_minutes() {
    // 24 hours at 300 s, laterals hourly plus one extra value
    assert_eq!(
        plan_node_run(288, 25, 288),
        Ok(NodeRunPlan::Route { upsampling: 12, fill_inflow: false, fill_external: false })
    );
    assert_eq!(lateral_index(12, 0), 0);
    assert_eq!(lateral_index(12, 11), 0);
    assert_eq!(lateral_index(12, 12), 1);
    assert_eq!(lateral_index(12, 287), 23);
    assert!(takes_new_lateral(12, 24));
    assert!(!takes_new_lateral(12, 25));
}

#[test]
fn missing_inputs_are_zero_filled() {
    assert_eq!(
        plan_node_run(0, 25, 288),
        Ok(NodeRunPlan::Route { upsampling: 12, fill_inflow: true, fill_external: false })
    );
    assert_eq!(
        plan_node_run(288, 0, 288),
        Ok(NodeRunPlan::Route { upsampling: 1, fill_inflow: false, fill_external: true })
    );
}

#[test]
fn laterals_running_out_is_an_error() {
    // 5 timesteps and 4 lateral values: one value per timestep, the fifth is missing
    assert_eq!(plan_node_run(5, 4, 5), Err(NodeRunError::MissingExternalFlow { timestep: 4 }));
}

#[test]
fn undefined_inputs_are_detected() {
    // more lateral intervals than timesteps
    assert!(!check_node_run_inputs(3, 10, 3));
    // upstream flow shorter than the run
    assert!(!check_node_run_inputs(100, 25, 288));
    // a single timestep without laterals
    assert!(!check_node_run_inputs(1, 0, 1));
    assert!(check_node_run_inputs(288, 25, 288));
}

#[test]
fn short_upstream_store_is_fine_when_laterals_run_out_first() {
    // 5 timesteps, 4 lateral values held one timestep each: the fifth timestep
    // fails before it needs a fifth upstream value
    assert!(check_node_run_inputs(4, 4, 5));
    assert_eq!(plan_node_run(4, 4, 5), Err(NodeRunError::MissingExternalFlow { timestep: 4 }));
    // three upstream values cannot cover the four routed timesteps
    assert!(!check_node_run_inputs(3, 4, 5));
}

#[test]
fn empty_upstream_store_is_zero_filled_unless_idle() {
    assert!(zero_fills_upstream(0, 1));
    assert!(zero_fills_upstream(0, 25));
    assert!(!zero_fills_upstream(0, 0));
    assert!(!zero_fills_upstream(288, 25));
}
