//! Channel geometry of a reach and its subdivision into sections.
//!
//! Parameters are fixed-point numbers: non-negative integers in a unit that
//! the caller chooses once for all of them (so that ratios between them are
//! meaningful). Interpolation weights are fractions of `WEIGHT_ONE`.
use std::collections::HashMap;
use vstd::prelude::*;

verus! {

broadcast use vstd::std_specs::hash::group_hash_axioms;

/// The weight that stands for 1 in an interpolation.
pub const WEIGHT_ONE: u64 = 0x1_0000_0000;

/// Hydraulic parameters of a channel reach.
#[derive(Clone, Copy, Debug, PartialEq, Eq)]
pub struct ChannelParams {
    /// Length of the reach.
    pub dx: u64,
    /// Manning's roughness of the main channel.
    pub n: u64,
    /// Manning's roughness of the compound (floodplain) channel.
    pub ncc: u64,
    /// Bottom slope.
    pub s0: u64,
    /// Bottom width.
    pub bw: u64,
    /// Top width at bankfull.
    pub tw: u64,
    /// Top width of the compound channel.
    pub twcc: u64,
    /// Side slope.
    pub cs: u64,
}

/// One of the parameters of a reach.
#[derive(Clone, Copy, Debug, PartialEq, Eq)]
pub enum ChannelField {
    Dx,
    N,
    Ncc,
    S0,
    Bw,
    Tw,
    Twcc,
    Cs,
}

pub open spec fn field_value(p: ChannelParams, f: ChannelField) -> u64 {
    match f {
        ChannelField::Dx => p.dx,
        ChannelField::N => p.n,
        ChannelField::Ncc => p.ncc,
        ChannelField::S0 => p.s0,
        ChannelField::Bw => p.bw,
        ChannelField::Tw => p.tw,
        ChannelField::Twcc => p.twcc,
        ChannelField::Cs => p.cs,
    }
}

/// Reads one parameter of a reach.
pub fn field_of(p: &ChannelParams, f: ChannelField) -> (v: u64)
    ensures
        v == field_value(*p, f),
{
    match f {
        ChannelField::Dx => p.dx,
        ChannelField::N => p.n,
        ChannelField::Ncc => p.ncc,
        ChannelField::S0 => p.s0,
        ChannelField::Bw => p.bw,
        ChannelField::Tw => p.tw,
        ChannelField::Twcc => p.twcc,
        ChannelField::Cs => p.cs,
    }
}

/// The value a fraction `t / WEIGHT_ONE` of the way from `a` to `b`, rounded down.
pub open spec fn spec_lerp(a: u64, b: u64, t: u64) -> int {
    (a * (WEIGHT_ONE - t) + b * t) / (WEIGHT_ONE as int)
}

/// Linear interpolation between two parameter values.
pub fn lerp(a: u64, b: u64, t: u64) -> (r: u64)
    requires
        t <= WEIGHT_ONE,
    ensures
        r == spec_lerp(a, b, t),
{
    let wa: u128 = (WEIGHT_ONE - t) as u128;
    let wb: u128 = t as u128;
    proof {
        assert(a * wa <= 0xffff_ffff_ffff_ffff * wa) by (nonlinear_arith)
            requires
                a <= 0xffff_ffff_ffff_ffffu64,
        ;
        assert(b * wb <= 0xffff_ffff_ffff_ffff * wb) by (nonlinear_arith)
            requires
                b <= 0xffff_ffff_ffff_ffffu64,
        ;
    }
    let num: u128 = (a as u128) * wa + (b as u128) * wb;
    let q: u128 = num / (WEIGHT_ONE as u128);
    proof {
        let m: int = if a >= b {
            a as int
        } else {
            b as int
        };
        assert(num <= m * (WEIGHT_ONE as int)) by (nonlinear_arith)
            requires
                num == a * wa + b * wb,
                wa + wb == WEIGHT_ONE,
                a <= m,
                b <= m,
                wa >= 0,
                wb >= 0,
        ;
        assert(q <= m) by (nonlinear_arith)
            requires
                q == (num as int) / (WEIGHT_ONE as int),
                num <= m * (WEIGHT_ONE as int),
                WEIGHT_ONE > 0,
        ;
    }
    q as u64
}

/// Interpolates every parameter but the length, which is left at zero for the
/// caller to set.
pub fn lerp_params(a: &ChannelParams, b: &ChannelParams, t: u64) -> (r: ChannelParams)
    requires
        t <= WEIGHT_ONE,
    ensures
        r.dx == 0,
        r.n == spec_lerp(a.n, b.n, t),
        r.ncc == spec_lerp(a.ncc, b.ncc, t),
        r.s0 == spec_lerp(a.s0, b.s0, t),
        r.bw == spec_lerp(a.bw, b.bw, t),
        r.tw == spec_lerp(a.tw, b.tw, t),
        r.twcc == spec_lerp(a.twcc, b.twcc, t),
        r.cs == spec_lerp(a.cs, b.cs, t),
{
    ChannelParams {
        dx: 0,
        n: lerp(a.n, b.n, t),
        ncc: lerp(a.ncc, b.ncc, t),
        s0: lerp(a.s0, b.s0, t),
        bw: lerp(a.bw, b.bw, t),
        tw: lerp(a.tw, b.tw, t),
        twcc: lerp(a.twcc, b.twcc, t),
        cs: lerp(a.cs, b.cs, t),
    }
}

/// The sum of one parameter over a list of reaches.
pub open spec fn field_sum(ps: Seq<ChannelParams>, f: ChannelField) -> int
    decreases ps.len(),
{
    if ps.len() == 0 {
        0
    } else {
        field_sum(ps.drop_last(), f) + field_value(ps.last(), f)
    }
}

/// The reaches a list of references points to.
pub open spec fn deref_all(ps: Seq<&ChannelParams>) -> Seq<ChannelParams> {
    ps.map_values(|p: &ChannelParams| *p)
}

/// The mean of one parameter over a non-empty list of reaches, rounded down.
pub open spec fn field_mean(ps: Seq<ChannelParams>, f: ChannelField) -> int {
    field_sum(ps, f) / (ps.len() as int)
}

fn mean_of(params_list: &[&ChannelParams], f: ChannelField) -> (m: u64)
    requires
        params_list@.len() > 0,
    ensures
        m == field_mean(deref_all(params_list@), f),
{
    let len = params_list.len();
    let mut sum: u128 = 0;
    let mut i: usize = 0;
    while i < len
        invariant
            len == params_list@.len(),
            i <= len,
            sum == field_sum(deref_all(params_list@).take(i as int), f),
            sum <= i * 0xffff_ffff_ffff_ffff,
        decreases len - i,
    {
        proof {
            assert(deref_all(params_list@).take(i as int + 1).drop_last() =~= deref_all(
                params_list@,
            ).take(i as int));
        }
        sum = sum + field_of(params_list[i], f) as u128;
        i = i + 1;
    }
    proof {
        assert(deref_all(params_list@).take(len as int) =~= deref_all(params_list@));
    }
    let q: u128 = sum / (len as u128);
    proof {
        assert(q <= 0xffff_ffff_ffff_ffff) by (nonlinear_arith)
            requires
                q == (sum as int) / (len as int),
                sum <= len * 0xffff_ffff_ffff_ffff,
                len > 0,
        ;
    }
    q as u64
}

/// The parameters of the reaches feeding one reach, averaged field by field
/// (each mean rounded down).
pub fn average_params(params_list: &[&ChannelParams]) -> (r: ChannelParams)
    requires
        params_list@.len() > 0,
    ensures
        r.dx == field_mean(deref_all(params_list@), ChannelField::Dx),
        r.n == field_mean(deref_all(params_list@), ChannelField::N),
        r.ncc == field_mean(deref_all(params_list@), ChannelField::Ncc),
        r.s0 == field_mean(deref_all(params_list@), ChannelField::S0),
        r.bw == field_mean(deref_all(params_list@), ChannelField::Bw),
        r.tw == field_mean(deref_all(params_list@), ChannelField::Tw),
        r.twcc == field_mean(deref_all(params_list@), ChannelField::Twcc),
        r.cs == field_mean(deref_all(params_list@), ChannelField::Cs),
{
    ChannelParams {
        dx: mean_of(params_list, ChannelField::Dx),
        n: mean_of(params_list, ChannelField::N),
        ncc: mean_of(params_list, ChannelField::Ncc),
        s0: mean_of(params_list, ChannelField::S0),
        bw: mean_of(params_list, ChannelField::Bw),
        tw: mean_of(params_list, ChannelField::Tw),
        twcc: mean_of(params_list, ChannelField::Twcc),
        cs: mean_of(params_list, ChannelField::Cs),
    }
}

/// How many sections a reach of `total_length` is cut into for a target
/// section length: none below one, as few as keep each section no longer than
/// the target, and one when the target is not positive (no subdivision).
pub open spec fn spec_section_count(total_length: u64, target_length: i64) -> int {
    if target_length > 0 {
        let q = (total_length + target_length - 1) / (target_length as int);
        if q < 1 {
            1
        } else if q > usize::MAX {
            usize::MAX as int
        } else {
            q
        }
    } else {
        1
    }
}

/// Number of sections a reach is cut into.
pub fn section_count(total_length: u64, target_length: i64) -> (n: usize)
    ensures
        n == spec_section_count(total_length, target_length),
        n >= 1,
{
    if target_length > 0 {
        let t = target_length as u64;
        let q0: u128 = (total_length / t) as u128;
        let q: u128 = if total_length % t != 0 {
            q0 + 1
        } else {
            q0
        };
        proof {
            let tt = target_length as int;
            let total = total_length as int;
            assert(q == (total + tt - 1) / tt) by (nonlinear_arith)
                requires
                    tt > 0,
                    q0 == total / tt,
                    q == (if total % tt != 0 {
                        q0 + 1
                    } else {
                        q0 as int
                    }),
            {
                vstd::arithmetic::div_mod::lemma_fundamental_div_mod(total, tt);
                vstd::arithmetic::div_mod::lemma_fundamental_div_mod(total + tt - 1, tt);
            }
        }
        if q < 1 {
            1
        } else if q > usize::MAX as u128 {
            usize::MAX
        } else {
            q as usize
        }
    } else {
        1
    }
}

/// Length of each section, rounded down.
pub fn section_length(total_length: u64, num_sections: usize) -> (len: u64)
    requires
        num_sections >= 1,
    ensures
        len == (total_length as int) / (num_sections as int),
{
    (total_length as u128 / num_sections as u128) as u64
}

/// Where section `s` of `num_sections` takes its parameters from: its centre
/// lies at `(2s + 1) / (2 num_sections)` along the reach; in the upstream half
/// it interpolates from the upstream reach to this reach, in the downstream
/// half from this reach to the downstream one. Returns whether it lies in the
/// upstream half and the weight of the interpolation.
pub open spec fn spec_section_weight(s: int, num_sections: int) -> (bool, int) {
    let c = 2 * s + 1;
    if c <= num_sections {
        (true, c * WEIGHT_ONE / num_sections)
    } else {
        (false, (c - num_sections) * WEIGHT_ONE / num_sections)
    }
}

/// Parameters of section `s` of a reach cut into `num_sections` sections.
pub open spec fn spec_section_params(
    channel: ChannelParams,
    upstream: ChannelParams,
    downstream: ChannelParams,
    s: int,
    num_sections: int,
) -> ChannelParams {
    if num_sections == 1 {
        channel
    } else {
        let (first_half, w) = spec_section_weight(s, num_sections);
        let (a, b) = if first_half {
            (upstream, channel)
        } else {
            (channel, downstream)
        };
        ChannelParams {
            dx: 0,
            n: spec_lerp(a.n, b.n, w as u64) as u64,
            ncc: spec_lerp(a.ncc, b.ncc, w as u64) as u64,
            s0: spec_lerp(a.s0, b.s0, w as u64) as u64,
            bw: spec_lerp(a.bw, b.bw, w as u64) as u64,
            tw: spec_lerp(a.tw, b.tw, w as u64) as u64,
            twcc: spec_lerp(a.twcc, b.twcc, w as u64) as u64,
            cs: spec_lerp(a.cs, b.cs, w as u64) as u64,
        }
    }
}

/// The reach's own parameters stand in for a missing neighbour.
pub open spec fn or_channel(p: Option<&ChannelParams>, channel: ChannelParams) -> ChannelParams {
    match p {
        Some(q) => *q,
        None => channel,
    }
}

fn section_weight(s: usize, num_sections: usize) -> (r: (bool, u64))
    requires
        s < num_sections,
    ensures
        r.0 == spec_section_weight(s as int, num_sections as int).0,
        r.1 == spec_section_weight(s as int, num_sections as int).1,
        r.1 <= WEIGHT_ONE,
{
    let c: u128 = 2 * (s as u128) + 1;
    let n: u128 = num_sections as u128;
    proof {
        assert(c * (WEIGHT_ONE as int) <= 0x4_0000_0000_0000_0000_0000_0000) by (nonlinear_arith)
            requires
                c <= 2 * 0xffff_ffff_ffff_ffffu128 + 1,
        ;
    }
    if c <= n {
        let w = c * (WEIGHT_ONE as u128) / n;
        proof {
            let ci = c as int;
            let ni = n as int;
            let one = WEIGHT_ONE as int;
            assert(ci * one <= ni * one) by (nonlinear_arith)
                requires
                    ci <= ni,
                    one > 0,
            ;
            vstd::arithmetic::div_mod::lemma_div_is_ordered(ci * one, ni * one, ni);
            vstd::arithmetic::div_mod::lemma_div_multiples_vanish(one, ni);
        }
        (true, w as u64)
    } else {
        let w = (c - n) * (WEIGHT_ONE as u128) / n;
        proof {
            let ci = (c - n) as int;
            let ni = n as int;
            let one = WEIGHT_ONE as int;
            assert(ci * one <= ni * one) by (nonlinear_arith)
                requires
                    ci <= ni,
                    one > 0,
            ;
            vstd::arithmetic::div_mod::lemma_div_is_ordered(ci * one, ni * one, ni);
            vstd::arithmetic::div_mod::lemma_div_multiples_vanish(one, ni);
        }
        (false, w as u64)
    }
}

/// Parameters of every section of a reach, from upstream to downstream. With
/// one section they are the reach's own; otherwise each section interpolates
/// between its neighbours (the reach's own parameters where one is missing).
pub fn section_params(
    channel: &ChannelParams,
    upstream: Option<&ChannelParams>,
    downstream: Option<&ChannelParams>,
    num_sections: usize,
) -> (sections: Vec<ChannelParams>)
    requires
        num_sections >= 1,
    ensures
        sections@.len() == num_sections,
        forall|s: int|
            0 <= s < num_sections ==> #[trigger] sections@[s] == spec_section_params(
                *channel,
                or_channel(upstream, *channel),
                or_channel(downstream, *channel),
                s,
                num_sections as int,
            ),
{
    let up: &ChannelParams = match upstream {
        Some(p) => p,
        None => channel,
    };
    let down: &ChannelParams = match downstream {
        Some(p) => p,
        None => channel,
    };
    let mut sections: Vec<ChannelParams> = Vec::new();
    let mut s: usize = 0;
    while s < num_sections
        invariant
            s <= num_sections,
            sections@.len() == s,
            *up == or_channel(upstream, *channel),
            *down == or_channel(downstream, *channel),
            forall|j: int|
                0 <= j < s ==> #[trigger] sections@[j] == spec_section_params(
                    *channel,
                    *up,
                    *down,
                    j,
                    num_sections as int,
                ),
        decreases num_sections - s,
    {
        let p = if num_sections == 1 {
            *channel
        } else {
            let (first_half, w) = section_weight(s, num_sections);
            if first_half {
                lerp_params(up, channel, w)
            } else {
                lerp_params(channel, down, w)
            }
        };
        sections.push(p);
        s = s + 1;
    }
    sections
}

/// The parameters found for `ids`, in order, skipping ids without parameters.
pub open spec fn found_params(ids: Seq<u32>, params: Map<u32, ChannelParams>) -> Seq<
    ChannelParams,
>
    decreases ids.len(),
{
    if ids.len() == 0 {
        Seq::empty()
    } else if params.contains_key(ids.last()) {
        found_params(ids.drop_last(), params).push(params[ids.last()])
    } else {
        found_params(ids.drop_last(), params)
    }
}

/// The averaged parameters of the reaches feeding a reach, among those whose
/// parameters are known; none when no feeder's are.
pub fn upstream_params(upstream_ids: &Vec<u32>, params: &HashMap<u32, ChannelParams>) -> (r: Option<
    ChannelParams,
>)
    ensures
        ({
            let found = found_params(upstream_ids@, params@);
            &&& found.len() == 0 ==> r is None
            &&& found.len() > 0 ==> (r matches Some(p) && {
                &&& p.dx == field_mean(found, ChannelField::Dx)
                &&& p.n == field_mean(found, ChannelField::N)
                &&& p.ncc == field_mean(found, ChannelField::Ncc)
                &&& p.s0 == field_mean(found, ChannelField::S0)
                &&& p.bw == field_mean(found, ChannelField::Bw)
                &&& p.tw == field_mean(found, ChannelField::Tw)
                &&& p.twcc == field_mean(found, ChannelField::Twcc)
                &&& p.cs == field_mean(found, ChannelField::Cs)
            })
        }),
{
    let mut found: Vec<&ChannelParams> = Vec::new();
    let mut i: usize = 0;
    while i < upstream_ids.len()
        invariant
            i <= upstream_ids@.len(),
            deref_all(found@) == found_params(upstream_ids@.take(i as int), params@),
        decreases upstream_ids@.len() - i,
    {
        proof {
            assert(upstream_ids@.take(i as int + 1).drop_last() =~= upstream_ids@.take(i as int));
        }
        let ghost before = found@;
        match params.get(&upstream_ids[i]) {
            Some(p) => {
                found.push(p);
                proof {
                    assert(deref_all(found@) =~= deref_all(before).push(*p));
                }
            },
            None => {},
        }
        i = i + 1;
    }
    proof {
        assert(upstream_ids@.take(upstream_ids@.len() as int) =~= upstream_ids@);
    }
    if found.len() == 0 {
        None
    } else {
        Some(average_params(found.as_slice()))
    }
}

/// The parameters of the reach downstream, when there is one and they are known.
pub fn downstream_params(downstream_id: Option<u32>, params: &HashMap<u32, ChannelParams>) -> (r:
    Option<ChannelParams>)
    ensures
        r == (match downstream_id {
            Some(d) => if params@.contains_key(d) {
                Some(params@[d])
            } else {
                None
            },
            None => None,
        }),
{
    match downstream_id {
        Some(d) => match params.get(&d) {
            Some(p) => Some(*p),
            None => None,
        },
        None => None,
    }
}

/// Interpolation starts at `a`, ends at `b`, stays between them, and is the
/// constant value when both ends agree.
pub proof fn lemma_lerp_bounds(a: u64, b: u64, t: u64)
    requires
        t <= WEIGHT_ONE,
    ensures
        spec_lerp(a, b, 0) == a,
        spec_lerp(a, b, WEIGHT_ONE) == b,
        spec_lerp(a, a, t) == a,
        a <= b ==> a <= spec_lerp(a, b, t) <= b,
        b <= a ==> b <= spec_lerp(a, b, t) <= a,
{
    let one = WEIGHT_ONE as int;
    let wa = one - t;
    let wb = t as int;
    vstd::arithmetic::div_mod::lemma_div_multiples_vanish(a as int, one);
    vstd::arithmetic::div_mod::lemma_div_multiples_vanish(b as int, one);
    assert(a * (one - 0) + b * 0 == one * a) by (nonlinear_arith);
    assert(a * (one - one) + b * one == one * b) by (nonlinear_arith);
    assert(a * wa + a * wb == one * a) by (nonlinear_arith)
        requires
            wa + wb == one,
    ;
    let num = a * wa + b * wb;
    if a <= b {
        assert(one * a <= num <= one * b) by (nonlinear_arith)
            requires
                num == a * wa + b * wb,
                wa + wb == one,
                wa >= 0,
                wb >= 0,
                a <= b,
        ;
        vstd::arithmetic::div_mod::lemma_div_is_ordered(one * a, num, one);
        vstd::arithmetic::div_mod::lemma_div_is_ordered(num, one * b, one);
    } else {
        assert(one * b <= num <= one * a) by (nonlinear_arith)
            requires
                num == a * wa + b * wb,
                wa + wb == one,
                wa >= 0,
                wb >= 0,
                b <= a,
        ;
        vstd::arithmetic::div_mod::lemma_div_is_ordered(one * b, num, one);
        vstd::arithmetic::div_mod::lemma_div_is_ordered(num, one * a, one);
    }
}

proof fn lemma_field_sum_constant(ps: Seq<ChannelParams>, p: ChannelParams, f: ChannelField)
    requires
        forall|i: int| 0 <= i < ps.len() ==> #[trigger] ps[i] == p,
    ensures
        field_sum(ps, f) == ps.len() * field_value(p, f),
    decreases ps.len(),
{
    if ps.len() > 0 {
        let rest = ps.drop_last();
        assert forall|i: int| 0 <= i < rest.len() implies #[trigger] rest[i] == p by {
            assert(rest[i] == ps[i]);
        }
        lemma_field_sum_constant(rest, p, f);
        assert(field_sum(ps, f) == rest.len() * field_value(p, f) + field_value(p, f));
        assert(rest.len() * field_value(p, f) + field_value(p, f) == ps.len() * field_value(p, f))
            by (nonlinear_arith)
            requires
                ps.len() == rest.len() + 1,
        ;
    }
}

/// Averaging reaches that all have the same parameters gives those parameters.
pub proof fn lemma_average_of_equal_params(ps: Seq<ChannelParams>, p: ChannelParams, f: ChannelField)
    requires
        ps.len() > 0,
        forall|i: int| 0 <= i < ps.len() ==> #[trigger] ps[i] == p,
    ensures
        field_mean(ps, f) == field_value(p, f),
{
    lemma_field_sum_constant(ps, p, f);
    let n = ps.len() as int;
    let v = field_value(p, f) as int;
    assert((n * v) / n == v) by (nonlinear_arith)
        requires
            n > 0,
    {
        vstd::arithmetic::div_mod::lemma_div_multiples_vanish(v, n);
    }
}

/// Without a positive target, or with a target no shorter than the reach, the
/// reach stays in one piece, so its only section has the reach's own
/// parameters: subdividing then changes nothing.
pub proof fn lemma_short_reach_is_one_section(
    channel: ChannelParams,
    upstream: ChannelParams,
    downstream: ChannelParams,
    total_length: u64,
    target_length: i64,
)
    requires
        target_length <= 0 || target_length >= total_length,
    ensures
        spec_section_count(total_length, target_length) == 1,
        spec_section_params(channel, upstream, downstream, 0, 1) == channel,
{
    if target_length > 0 {
        let t = target_length as int;
        let q = (total_length + t - 1) / t;
        if total_length == 0 {
            assert(q == 0) by (nonlinear_arith)
                requires
                    q == (t - 1) / t,
                    t > 0,
            ;
        } else {
            assert(q == 1) by (nonlinear_arith)
                requires
                    q == (total_length + t - 1) / t,
                    0 < total_length <= t,
            ;
        }
    }
}

/// With a positive target, sections are never longer than the target, and
/// no fewer sections would do (unless the count had to be capped).
pub proof fn lemma_sections_fit_target(total_length: u64, target_length: i64)
    requires
        target_length > 0,
        (total_length + target_length - 1) / (target_length as int) <= usize::MAX,
    ensures
        spec_section_count(total_length, target_length) * target_length >= total_length,
        total_length > 0 ==> (spec_section_count(total_length, target_length) - 1) * target_length
            < total_length,
{
    let t = target_length as int;
    let total = total_length as int;
    let q = (total + t - 1) / t;
    vstd::arithmetic::div_mod::lemma_fundamental_div_mod(total + t - 1, t);
    assert(q * t >= total) by (nonlinear_arith)
        requires
            total + t - 1 == t * q + (total + t - 1) % t,
            0 <= (total + t - 1) % t < t,
    ;
    assert((q - 1) * t < total) by (nonlinear_arith)
        requires
            total + t - 1 == t * q + (total + t - 1) % t,
            0 <= (total + t - 1) % t,
    ;
    if total > 0 {
        assert(q >= 1) by (nonlinear_arith)
            requires
                q * t >= total,
                total > 0,
                t > 0,
        ;
    }
}

/// When a reach has an odd number of sections, the middle one sits at the
/// reach's centre and takes the reach's own parameters (its length aside).
pub proof fn lemma_middle_section_is_the_reach(
    channel: ChannelParams,
    upstream: ChannelParams,
    downstream: ChannelParams,
    num_sections: int,
)
    requires
        num_sections >= 3,
        num_sections % 2 == 1,
    ensures
        ({
            let m = spec_section_params(channel, upstream, downstream, (num_sections - 1) / 2, num_sections);
            m == ChannelParams { dx: 0, ..channel }
        }),
{
    let s = (num_sections - 1) / 2;
    assert(2 * s + 1 == num_sections);
    vstd::arithmetic::div_mod::lemma_div_multiples_vanish(WEIGHT_ONE as int, num_sections);
    assert(num_sections * (WEIGHT_ONE as int) / num_sections == WEIGHT_ONE);
    assert(spec_section_weight(s, num_sections) == (true, WEIGHT_ONE as int));
    lemma_lerp_bounds(upstream.n, channel.n, WEIGHT_ONE);
    lemma_lerp_bounds(upstream.ncc, channel.ncc, WEIGHT_ONE);
    lemma_lerp_bounds(upstream.s0, channel.s0, WEIGHT_ONE);
    lemma_lerp_bounds(upstream.bw, channel.bw, WEIGHT_ONE);
    lemma_lerp_bounds(upstream.tw, channel.tw, WEIGHT_ONE);
    lemma_lerp_bounds(upstream.twcc, channel.twcc, WEIGHT_ONE);
    lemma_lerp_bounds(upstream.cs, channel.cs, WEIGHT_ONE);
}

} // verus!
