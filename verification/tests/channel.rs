use route_rs::channel::{
    average_params, downstream_params, lerp, lerp_params, section_count, section_length,
    section_params, upstream_params, ChannelParams, WEIGHT_ONE,
};
use std::collections::HashMap;

fn params(base: u64) -> ChannelParams {
    ChannelParams {
        dx: base,
        n: base + 1,
        ncc: base + 2,
        s0: base + 3,
        bw: base + 4,
        tw: base + 5,
        twcc: base + 6,
        cs: base + 7,
    }
}

#[test]
fn lerp_endpoints_and_midpoint() {
    assert_eq!(lerp(10, 20, 0), 10);
    assert_eq!(lerp(10, 20, WEIGHT_ONE), 20);
    assert_eq!(lerp(10, 20, WEIGHT_ONE / 2), 15);
    assert_eq!(lerp(20, 10, WEIGHT_ONE / 4), 17); // 17.5 rounded down
    assert_eq!(lerp(u64::MAX, u64::MAX, WEIGHT_ONE / 3), u64::MAX);
}

#[test]
fn lerp_params_leaves_length_to_caller() {
    let p = lerp_params(&params(0), &params(100), WEIGHT_ONE / 2);
    assert_eq!(p.dx, 0);
    assert_eq!(p.n, 51);
    assert_eq!(p.cs, 57);
}

#[test]
fn average_of_feeders() {
    let a = params(10);
    let b = params(21);
    let avg = average_params(&[&a, &b]);
    assert_eq!(avg.dx, 15); // 15.5 rounded down
    assert_eq!(avg.n, 16);
    assert_eq!(avg.cs, 22);
    assert_eq!(average_params(&[&a]), a);
    assert_eq!(average_params(&[&a, &a, &a]), a);
}

#[test]
fn section_count_rounds_up_and_defaults_to_one() {
    assert_eq!(section_count(6910, -1), 1);
    assert_eq!(section_count(6910, 0), 1);
    assert_eq!(section_count(6910, 300), 24);
    assert_eq!(section_count(6900, 300), 23);
    assert_eq!(section_count(6910, 6910), 1);
    assert_eq!(section_count(0, 300), 1);
    assert_eq!(section_length(6910, 24), 287);
}

#[test]
fn single_section_keeps_reach_params() {
    let ch = params(50);
    let up = params(10);
    let secs = section_params(&ch, Some(&up), None, 1);
    assert_eq!(secs, vec![ch]);
}

#[test]
fn sections_interpolate_towards_neighbours() {
    let ch = params(100);
    let up = params(0);
    let down = params(200);
    let secs = section_params(&ch, Some(&up), Some(&down), 3);
    assert_eq!(secs.len(), 3);
    // centres at 1/6, 1/2, 5/6 of the reach
    assert_eq!(secs[0].n, 34); // 1 + 100 * (1/3), rounded down
    assert_eq!(secs[1], ChannelParams { dx: 0, ..ch });
    assert_eq!(secs[2].n, 167); // 101 + 100 * (1/3), rounded down
    // without neighbours every section has the reach's own parameters
    let alone = section_params(&ch, None, None, 4);
    assert!(alone.iter().all(|p| *p == ChannelParams { dx: 0, ..ch }));
}

#[test]
fn neighbour_parameters_are_looked_up() {
    let mut m = HashMap::new();
    m.insert(1u32, params(10));
    m.insert(2u32, params(21));
    let up = upstream_params(&vec![1, 5, 2], &m).unwrap();
    assert_eq!(up, average_params(&[&params(10), &params(21)]));
    assert_eq!(upstream_params(&vec![5, 6], &m), None);
    assert_eq!(upstream_params(&vec![], &m), None);
    assert_eq!(downstream_params(Some(2), &m), Some(params(21)));
    assert_eq!(downstream_params(Some(9), &m), None);
    assert_eq!(downstream_params(None, &m), None);
}

#[test]
fn target_equal_to_reach_length_matches_no_subdivision() {
    let ch = params(6910);
    let up = params(10);
    let down = params(20);
    let n_off = section_count(ch.dx, -1);
    let n_full = section_count(ch.dx, ch.dx as i64);
    assert_eq!(n_off, 1);
    assert_eq!(n_full, 1);
    assert_eq!(
        section_params(&ch, Some(&up), Some(&down), n_off),
        section_params(&ch, Some(&up), Some(&down), n_full)
    );
    assert_eq!(section_length(ch.dx, n_full), ch.dx);
}
