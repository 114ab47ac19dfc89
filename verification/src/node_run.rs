//! Planning the routing of one reach over all timesteps.
//!
//! A reach is driven by the flow arriving from upstream (one value per
//! timestep) and by lateral inflow read from a file, which is coarser: the
//! file has one value per output interval plus one, and each value is held
//! for `upsampling` consecutive timesteps.
use vstd::prelude::*;

verus! {

/// How a reach is routed.
#[derive(Clone, Copy, Debug, PartialEq, Eq)]
pub enum NodeRunPlan {
    /// Neither upstream flow nor lateral inflow: every output is zero.
    Idle,
    /// Route every timestep; lateral value `t / upsampling` applies at timestep `t`.
    Route {
        upsampling: usize,
        /// No upstream flow arrived: it is zero throughout.
        fill_inflow: bool,
        /// No lateral inflow was read: it is zero throughout.
        fill_external: bool,
    },
}

/// Why a reach cannot be routed.
#[derive(Clone, Copy, Debug, PartialEq, Eq)]
pub enum NodeRunError {
    /// The lateral inflow file holds a single value, too few to upsample.
    SingleExternalFlow,
    /// The lateral inflow runs out at this timestep.
    MissingExternalFlow { timestep: usize },
}

/// Number of lateral values the run works with: those read, or one zero per
/// timestep when none were read.
pub open spec fn lateral_count(external_len: nat, max_timesteps: nat) -> nat {
    if external_len == 0 {
        max_timesteps
    } else {
        external_len
    }
}

/// How many timesteps the lateral values cover when each is held for
/// `max_timesteps / (l - 1)` timesteps.
pub open spec fn lateral_reach(l: nat, max_timesteps: nat) -> nat {
    l * (max_timesteps / ((l - 1) as nat))
}

/// How many timesteps are routed before the run ends or the lateral values
/// run out; each of them consumes one upstream flow value.
pub open spec fn routed_timesteps(external_len: nat, max_timesteps: nat) -> nat {
    let r = lateral_reach(lateral_count(external_len, max_timesteps), max_timesteps);
    if r < max_timesteps {
        r
    } else {
        max_timesteps
    }
}

/// The inputs on which routing a reach is defined: there are at least two
/// lateral values, no more lateral intervals than timesteps (unless there are
/// no timesteps), and upstream flow, when there is any, covers every timestep
/// routed before the run ends or the lateral values run out.
pub open spec fn node_run_inputs_valid(
    inflow_len: nat,
    external_len: nat,
    max_timesteps: nat,
) -> bool {
    ||| inflow_len == 0 && external_len == 0
    ||| external_len == 1
    ||| {
        let l = lateral_count(external_len, max_timesteps);
        &&& l >= 2
        &&& (max_timesteps == 0 || l - 1 <= max_timesteps)
        &&& (inflow_len == 0 || inflow_len >= routed_timesteps(external_len, max_timesteps))
    }
}

/// Whether the upstream store is filled with zeros (one per timestep): it is
/// when it is empty and the reach is not idle, whether routing then succeeds
/// or fails.
pub open spec fn spec_zero_fills_upstream(inflow_len: nat, external_len: nat) -> bool {
    inflow_len == 0 && external_len > 0
}

/// Whether the upstream store is zero-filled before the reach is routed.
pub fn zero_fills_upstream(inflow_len: usize, external_len: usize) -> (b: bool)
    ensures
        b == spec_zero_fills_upstream(inflow_len as nat, external_len as nat),
{
    inflow_len == 0 && external_len > 0
}

/// `l` times the time each lateral value is held.
fn lateral_reach_of(l: usize, max_timesteps: usize) -> (r: u128)
    requires
        l >= 2,
        max_timesteps == 0 || l - 1 <= max_timesteps,
    ensures
        r == lateral_reach(l as nat, max_timesteps as nat),
        r <= 2 * max_timesteps,
{
    let up = max_timesteps / (l - 1);
    proof {
        let li = l as int;
        let ui = up as int;
        let t = max_timesteps as int;
        assert(li * ui <= 2 * t) by (nonlinear_arith)
            requires
                ui == t / (li - 1),
                li >= 2,
                t == 0 || li - 1 <= t,
        {
            vstd::arithmetic::div_mod::lemma_fundamental_div_mod(t, li - 1);
            if t > 0 {
                assert(ui <= t);
            }
        }
    }
    (l as u128) * (up as u128)
}

pub open spec fn spec_plan_node_run(inflow_len: nat, external_len: nat, max_timesteps: nat) -> Result<
    NodeRunPlan,
    NodeRunError,
> {
    if inflow_len == 0 && external_len == 0 {
        Ok(NodeRunPlan::Idle)
    } else if external_len == 1 {
        Err(NodeRunError::SingleExternalFlow)
    } else {
        let l = lateral_count(external_len, max_timesteps);
        let up = max_timesteps / ((l - 1) as nat);
        if l * up < max_timesteps {
            Err(NodeRunError::MissingExternalFlow { timestep: (l * up) as usize })
        } else {
            Ok(
                NodeRunPlan::Route {
                    upsampling: up as usize,
                    fill_inflow: inflow_len == 0,
                    fill_external: external_len == 0,
                },
            )
        }
    }
}

/// Whether routing a reach is defined on these inputs.
pub fn check_node_run_inputs(inflow_len: usize, external_len: usize, max_timesteps: usize) -> (ok:
    bool)
    ensures
        ok == node_run_inputs_valid(inflow_len as nat, external_len as nat, max_timesteps as nat),
{
    if inflow_len == 0 && external_len == 0 {
        return true;
    }
    if external_len == 1 {
        return true;
    }
    let l = if external_len == 0 {
        max_timesteps
    } else {
        external_len
    };
    if !(l >= 2 && (max_timesteps == 0 || l - 1 <= max_timesteps)) {
        return false;
    }
    let reach = lateral_reach_of(l, max_timesteps);
    let routed: u128 = if reach < max_timesteps as u128 {
        reach
    } else {
        max_timesteps as u128
    };
    inflow_len == 0 || inflow_len as u128 >= routed
}

/// Decides how a reach is routed, given how many upstream flow values and
/// lateral values arrived and how many timesteps are routed.
pub fn plan_node_run(inflow_len: usize, external_len: usize, max_timesteps: usize) -> (r: Result<
    NodeRunPlan,
    NodeRunError,
>)
    requires
        node_run_inputs_valid(inflow_len as nat, external_len as nat, max_timesteps as nat),
    ensures
        r == spec_plan_node_run(inflow_len as nat, external_len as nat, max_timesteps as nat),
{
    if inflow_len == 0 && external_len == 0 {
        return Ok(NodeRunPlan::Idle);
    }
    if external_len == 1 {
        return Err(NodeRunError::SingleExternalFlow);
    }
    let l = if external_len == 0 {
        max_timesteps
    } else {
        external_len
    };
    let up = max_timesteps / (l - 1);
    let reach: u128 = lateral_reach_of(l, max_timesteps);
    if reach < max_timesteps as u128 {
        Err(NodeRunError::MissingExternalFlow { timestep: reach as usize })
    } else {
        Ok(
            NodeRunPlan::Route {
                upsampling: up,
                fill_inflow: inflow_len == 0,
                fill_external: external_len == 0,
            },
        )
    }
}

/// Index of the lateral value that applies at `timestep`.
pub fn lateral_index(upsampling: usize, timestep: usize) -> (i: usize)
    requires
        upsampling > 0,
    ensures
        i == timestep / upsampling,
{
    timestep / upsampling
}

/// Whether a new lateral value is taken at `timestep`.
pub fn takes_new_lateral(upsampling: usize, timestep: usize) -> (b: bool)
    requires
        upsampling > 0,
    ensures
        b == (timestep % upsampling == 0),
{
    timestep % upsampling == 0
}

/// When a reach is routed, every timestep finds its lateral value: the index
/// stays below the number of lateral values, and consecutive timesteps take
/// values in order, each held for `upsampling` timesteps.
pub proof fn lemma_lateral_values_suffice(
    inflow_len: usize,
    external_len: usize,
    max_timesteps: usize,
    t: usize,
)
    requires
        node_run_inputs_valid(inflow_len as nat, external_len as nat, max_timesteps as nat),
        spec_plan_node_run(inflow_len as nat, external_len as nat, max_timesteps as nat) is Ok,
        spec_plan_node_run(inflow_len as nat, external_len as nat, max_timesteps as nat)->Ok_0 is Route,
        t < max_timesteps,
    ensures
        ({
            let up = spec_plan_node_run(inflow_len as nat, external_len as nat, max_timesteps as nat)->Ok_0->upsampling;
            &&& up > 0
            &&& (t as int) / (up as int) < lateral_count(external_len as nat, max_timesteps as nat)
            &&& (t as int) % (up as int) == 0 ==> t == ((t as int) / (up as int)) * up
        }),
{
    let l = lateral_count(external_len as nat, max_timesteps as nat) as int;
    let tt = max_timesteps as int;
    let up = tt / (l - 1);
    assert(up > 0) by (nonlinear_arith)
        requires
            up == tt / (l - 1),
            l - 1 <= tt,
            l >= 2,
    {
        vstd::arithmetic::div_mod::lemma_div_is_ordered(l - 1, tt, l - 1);
        vstd::arithmetic::div_mod::lemma_div_by_self(l - 1);
    }
    assert(up <= tt) by {
        vstd::arithmetic::div_mod::lemma_div_is_ordered_by_denominator(tt, 1, l - 1);
    }
    assert(spec_plan_node_run(inflow_len as nat, external_len as nat, max_timesteps as nat)->Ok_0->upsampling == up);
    assert((t as int) / up < l) by (nonlinear_arith)
        requires
            t < tt,
            tt <= l * up,
            up > 0,
    {
        vstd::arithmetic::div_mod::lemma_div_is_ordered(t as int, l * up - 1, up);
        vstd::arithmetic::div_mod::lemma_fundamental_div_mod(l * up - 1, up);
        vstd::arithmetic::div_mod::lemma_fundamental_div_mod(t as int, up);
    }
    vstd::arithmetic::div_mod::lemma_fundamental_div_mod(t as int, up);
}

/// A reach without lateral values is routed with zero lateral inflow, one
/// value per timestep, as soon as the run has at least two timesteps and the
/// upstream flow (if any) covers the run; each zero is held for one timestep,
/// or two when the run has exactly two. With fewer than two timesteps and some
/// upstream flow, the inputs cannot drive the run.
pub proof fn lemma_missing_laterals_are_zero_filled(inflow_len: usize, max_timesteps: usize)
    ensures
        max_timesteps >= 2 && inflow_len >= max_timesteps ==> {
            &&& node_run_inputs_valid(inflow_len as nat, 0, max_timesteps as nat)
            &&& spec_plan_node_run(inflow_len as nat, 0, max_timesteps as nat) == Ok::<
                NodeRunPlan,
                NodeRunError,
            >(
                NodeRunPlan::Route {
                    upsampling: if max_timesteps == 2 {
                        2
                    } else {
                        1
                    },
                    fill_inflow: false,
                    fill_external: true,
                },
            )
        },
        max_timesteps >= 2 && inflow_len == 0 ==> node_run_inputs_valid(0, 0, max_timesteps as nat)
            && spec_plan_node_run(0, 0, max_timesteps as nat) == Ok::<NodeRunPlan, NodeRunError>(
            NodeRunPlan::Idle,
        ),
        max_timesteps < 2 && inflow_len > 0 ==> !node_run_inputs_valid(
            inflow_len as nat,
            0,
            max_timesteps as nat,
        ),
{
    let t = max_timesteps as int;
    if t >= 2 {
        let up = t / (t - 1);
        if t == 2 {
            assert(up == 2) by {
                vstd::arithmetic::div_mod::lemma_div_basics(t);
            }
        } else {
            assert(up == 1) by (nonlinear_arith)
                requires
                    up == t / (t - 1),
                    t >= 3,
            {
                vstd::arithmetic::div_mod::lemma_fundamental_div_mod(t, t - 1);
                assert(t == (t - 1) * 1 + 1);
                vstd::arithmetic::div_mod::lemma_fundamental_div_mod_converse(t, t - 1, 1, 1);
            }
        }
        assert(t * up >= t);
    }
}

/// With lateral values read from a file (at least two, no more intervals than
/// timesteps), a full upstream series, or none, always makes the inputs
/// routable; more upstream values never make routable inputs unroutable; and
/// when the lateral values cover the whole run, a non-empty upstream series
/// shorter than the run cannot drive it.
pub proof fn lemma_upstream_coverage(
    inflow_len: usize,
    more_inflow: usize,
    external_len: usize,
    max_timesteps: usize,
)
    requires
        external_len >= 2,
        max_timesteps == 0 || external_len - 1 <= max_timesteps,
    ensures
        (inflow_len == 0 || inflow_len >= max_timesteps) ==> node_run_inputs_valid(
            inflow_len as nat,
            external_len as nat,
            max_timesteps as nat,
        ),
        node_run_inputs_valid(inflow_len as nat, external_len as nat, max_timesteps as nat) && 0
            < inflow_len <= more_inflow ==> node_run_inputs_valid(
            more_inflow as nat,
            external_len as nat,
            max_timesteps as nat,
        ),
        spec_plan_node_run(inflow_len as nat, external_len as nat, max_timesteps as nat) is Ok && 0
            < inflow_len < max_timesteps ==> !node_run_inputs_valid(
            inflow_len as nat,
            external_len as nat,
            max_timesteps as nat,
        ),
{
}

} // verus!
