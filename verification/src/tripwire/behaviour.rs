//! What an evaluation says of a source, in terms of its tuning, its readings
//! and what was known of it.

use super::{evaluated, known, source_next, TripKind, TripwireEval, TripwireView};
use crate::accuracy::{
    amount, half_ulp, half_unit, lemma_amount_order, lemma_minus_near, lemma_worths, size,
};
use crate::config::TripwireConfig;
use crate::ema::law_a_sample_moves_the_value_by_its_share;
use crate::float::{whole, Float64};
use crate::order::{lemma_opposite, lemma_plus_rounded, lemma_rounded_exact, lemma_rounded_order};
use crate::source_map::{has_key, lemma_before_irreflexive, lemma_place, place, sorted};
use crate::time::seconds;
use vstd::prelude::*;

verus! {

/// What a tick makes of a source that was known and delivers.
proof fn lemma_delivering<E: Fn(Float64) -> Float64>(
    exp: E,
    sources: Seq<(Seq<char>, TripwireView)>,
    now: nat,
    max_gap: nat,
    readings: Seq<(Seq<char>, Float64)>,
    next: Seq<(Seq<char>, TripwireView)>,
    evals: Seq<TripwireEval>,
    i: int,
    j: int,
    n: int,
)
    requires
        evaluated(exp, sources, now, max_gap, readings, next, evals),
        sorted(sources),
        sorted(readings),
        0 <= i < sources.len(),
        0 <= j < readings.len(),
        0 <= n < next.len(),
        sources[i].0 == readings[j].0,
        next[n].0 == readings[j].0,
    ensures
        source_next(exp, sources[i].1, now, max_gap, Some(readings[j].1), next[n].1),
        evals.len() == next.len(),
        evals[n].key@ == readings[j].0,
        evals[n].latched == next[n].1.latched,
        evals[n].online,
{
    lemma_place(sources, i);
    lemma_place(readings, j);
    assert(next[n].0 == sources[i].0);
    assert(evals[n].key@ == next[n].0);
}

/// A latch survives a dip within the hysteresis, and clears below it: after a
/// reading, a source that was latched is latched exactly if its smoothed
/// temperature is above the threshold less the hysteresis, or has risen at the
/// spike rate since the last reading. `s` is the smoothed temperature before,
/// as of the time `last`.
pub proof fn law_a_latch_holds_within_the_hysteresis<E: Fn(Float64) -> Float64>(
    exp: E,
    sources: Seq<(Seq<char>, TripwireView)>,
    now: nat,
    max_gap: nat,
    readings: Seq<(Seq<char>, Float64)>,
    next: Seq<(Seq<char>, TripwireView)>,
    evals: Seq<TripwireEval>,
    i: int,
    j: int,
    n: int,
    cfg: TripwireConfig,
    s: Float64,
    last: nat,
)
    requires
        evaluated(exp, sources, now, max_gap, readings, next, evals),
        sorted(sources),
        sorted(readings),
        0 <= i < sources.len(),
        0 <= j < readings.len(),
        0 <= n < next.len(),
        sources[i].0 == readings[j].0,
        next[n].0 == readings[j].0,
        sources[i].1.cfg == Some(cfg),
        sources[i].1.latched,
        sources[i].1.ema.state == Some((s, last)),
        sources[i].1.ema.samples >= 1,
    ensures
        next[n].1.ema.state is Some,
        ({
            let value = (next[n].1.ema.state->0).0;
            let level = cfg.threshold_c.minus(cfg.hysteresis_c);
            let dt = if now - last <= max_gap {
                (now - last) as nat
            } else {
                max_gap
            };
            let rises = now > last && max_gap > 0 && cfg.spike_rate_c_per_s.at_most(
                value.minus(s).over(seconds(dt)),
            );
            &&& evals[n].latched <==> (!value.at_most(level) || rises)
            &&& next[n].1.latched == evals[n].latched
            &&& evals[n].latched ==> next[n].1.latched_by == sources[i].1.latched_by
            &&& !evals[n].latched ==> next[n].1.latched_by is None
        }),
{
    lemma_delivering(exp, sources, now, max_gap, readings, next, evals, i, j, n);
}

/// The same over the numbers themselves: a latch holds while the smoothed
/// temperature is above the threshold less the hysteresis by more than one
/// rounding, and clears as soon as it is not above that at all and does not
/// rise at the spike rate.
pub proof fn law_the_clear_level_is_threshold_less_hysteresis<E: Fn(Float64) -> Float64>(
    exp: E,
    sources: Seq<(Seq<char>, TripwireView)>,
    now: nat,
    max_gap: nat,
    readings: Seq<(Seq<char>, Float64)>,
    next: Seq<(Seq<char>, TripwireView)>,
    evals: Seq<TripwireEval>,
    i: int,
    j: int,
    n: int,
    cfg: TripwireConfig,
    s: Float64,
    last: nat,
)
    requires
        evaluated(exp, sources, now, max_gap, readings, next, evals),
        sorted(sources),
        sorted(readings),
        0 <= i < sources.len(),
        0 <= j < readings.len(),
        0 <= n < next.len(),
        sources[i].0 == readings[j].0,
        next[n].0 == readings[j].0,
        sources[i].1.cfg == Some(cfg),
        sources[i].1.latched,
        sources[i].1.ema.state == Some((s, last)),
        sources[i].1.ema.samples >= 1,
        cfg.threshold_c.finite(),
        cfg.hysteresis_c.finite(),
        cfg.threshold_c.minus(cfg.hysteresis_c).finite(),
        (next[n].1.ema.state->0).0.finite(),
    ensures
        ({
            let value = (next[n].1.ema.state->0).0;
            let level = amount(cfg.threshold_c) - amount(cfg.hysteresis_c);
            let dt = if now - last <= max_gap {
                (now - last) as nat
            } else {
                max_gap
            };
            &&& amount(value) > level + size(level) * half_ulp() + half_unit() ==> evals[n].latched
            &&& amount(value) <= level && !(now > last && max_gap > 0
                && cfg.spike_rate_c_per_s.at_most(value.minus(s).over(seconds(dt))))
                ==> !evals[n].latched
        }),
{
    law_a_latch_holds_within_the_hysteresis(
        exp,
        sources,
        now,
        max_gap,
        readings,
        next,
        evals,
        i,
        j,
        n,
        cfg,
        s,
        last,
    );
    let value = (next[n].1.ema.state->0).0;
    let (a, b) = (cfg.threshold_c, cfg.hysteresis_c);
    let level = a.minus(b);
    lemma_minus_near(a, b);
    lemma_amount_order(value, level);
    if amount(value) <= amount(a) - amount(b) {
        lemma_no_higher(value, a, b);
    }
}

/// A number that is no higher than an exact difference is no higher than the
/// rounded one.
proof fn lemma_no_higher(x: Float64, a: Float64, b: Float64)
    requires
        x.finite(),
        a.finite(),
        b.finite(),
        amount(x) <= amount(a) - amount(b),
    ensures
        x.at_most(a.minus(b)),
{
    lemma_opposite(b);
    lemma_plus_rounded(a, b.opposite());
    lemma_worths(x, a, b);
    lemma_rounded_order(x.worth(), a.worth() - b.worth());
    lemma_rounded_exact(x);
}

/// A source that was not latched latches exactly if its smoothed temperature
/// has reached the threshold, or has risen at the spike rate since the last
/// reading; and it is known by which of the two, the threshold before the
/// spike.
pub proof fn law_a_source_latches_exactly_on_a_hit<E: Fn(Float64) -> Float64>(
    exp: E,
    sources: Seq<(Seq<char>, TripwireView)>,
    now: nat,
    max_gap: nat,
    readings: Seq<(Seq<char>, Float64)>,
    next: Seq<(Seq<char>, TripwireView)>,
    evals: Seq<TripwireEval>,
    i: int,
    j: int,
    n: int,
    cfg: TripwireConfig,
    s: Float64,
    last: nat,
)
    requires
        evaluated(exp, sources, now, max_gap, readings, next, evals),
        sorted(sources),
        sorted(readings),
        0 <= i < sources.len(),
        0 <= j < readings.len(),
        0 <= n < next.len(),
        sources[i].0 == readings[j].0,
        next[n].0 == readings[j].0,
        sources[i].1.cfg == Some(cfg),
        !sources[i].1.latched,
        sources[i].1.ema.state == Some((s, last)),
        sources[i].1.ema.samples >= 1,
    ensures
        next[n].1.ema.state is Some,
        ({
            let value = (next[n].1.ema.state->0).0;
            let dt = if now - last <= max_gap {
                (now - last) as nat
            } else {
                max_gap
            };
            let rises = now > last && max_gap > 0 && cfg.spike_rate_c_per_s.at_most(
                value.minus(s).over(seconds(dt)),
            );
            &&& evals[n].latched <==> (cfg.threshold_c.at_most(value) || rises)
            &&& next[n].1.latched == evals[n].latched
            &&& cfg.threshold_c.at_most(value) ==> next[n].1.latched_by == Some(
                TripKind::Threshold,
            )
            &&& rises && !cfg.threshold_c.at_most(value) ==> next[n].1.latched_by == Some(
                TripKind::Spike,
            )
        }),
{
    lemma_delivering(exp, sources, now, max_gap, readings, next, evals, i, j, n);
}

/// The first reading of a tripwire is its smoothed temperature, and latches it
/// by the threshold alone.
pub proof fn law_the_first_reading_counts_by_the_threshold<E: Fn(Float64) -> Float64>(
    exp: E,
    sources: Seq<(Seq<char>, TripwireView)>,
    now: nat,
    max_gap: nat,
    readings: Seq<(Seq<char>, Float64)>,
    next: Seq<(Seq<char>, TripwireView)>,
    evals: Seq<TripwireEval>,
    i: int,
    j: int,
    n: int,
    cfg: TripwireConfig,
)
    requires
        evaluated(exp, sources, now, max_gap, readings, next, evals),
        sorted(sources),
        sorted(readings),
        0 <= i < sources.len(),
        0 <= j < readings.len(),
        0 <= n < next.len(),
        sources[i].0 == readings[j].0,
        next[n].0 == readings[j].0,
        sources[i].1.cfg == Some(cfg),
        !sources[i].1.latched,
        sources[i].1.ema.state is None,
    ensures
        next[n].1.ema.state == Some((readings[j].1, now)),
        evals[n].latched <==> cfg.threshold_c.at_most(readings[j].1),
        next[n].1.latched == evals[n].latched,
        evals[n].latched ==> next[n].1.latched_by == Some(TripKind::Threshold),
{
    lemma_delivering(exp, sources, now, max_gap, readings, next, evals, i, j, n);
}

/// A reading moves the smoothed temperature of a tripwire by the part of the
/// distance that its own time constant and the time since the last reading
/// give, no more than `max_gap` of it.
pub proof fn law_a_tripwire_is_smoothed_by_its_time_constant<E: Fn(Float64) -> Float64>(
    exp: E,
    sources: Seq<(Seq<char>, TripwireView)>,
    now: nat,
    max_gap: nat,
    readings: Seq<(Seq<char>, Float64)>,
    next: Seq<(Seq<char>, TripwireView)>,
    evals: Seq<TripwireEval>,
    i: int,
    j: int,
    n: int,
    cfg: TripwireConfig,
    s: Float64,
    last: nat,
    dt: nat,
)
    requires
        evaluated(exp, sources, now, max_gap, readings, next, evals),
        sorted(sources),
        sorted(readings),
        0 <= i < sources.len(),
        0 <= j < readings.len(),
        0 <= n < next.len(),
        sources[i].0 == readings[j].0,
        next[n].0 == readings[j].0,
        sources[i].1.cfg == Some(cfg),
        sources[i].1.ema.state == Some((s, last)),
        dt == (if now <= last {
            0
        } else if now - last <= max_gap {
            now - last
        } else {
            max_gap as int
        }),
    ensures
        next[n].1.cfg == Some(cfg),
        next[n].1.seen,
        next[n].1.ema.samples >= sources[i].1.ema.samples,
        exists|d: Float64| #[trigger]
            call_ensures(exp, (seconds(dt).opposite().over(cfg.ema_tau_s),), d)
                && next[n].1.ema.state == Some(
                (s.plus(whole(1).minus(d).times(readings[j].1.minus(s))), now),
            ),
{
    lemma_delivering(exp, sources, now, max_gap, readings, next, evals, i, j, n);
    law_a_sample_moves_the_value_by_its_share(
        exp,
        sources[i].1.ema,
        now,
        cfg.ema_tau_s,
        readings[j].1,
        max_gap,
        next[n].1.ema,
        s,
        last,
        dt,
    );
}

/// A source that delivers nothing is as it was, and is said to be offline.
pub proof fn law_an_absent_source_is_as_it_was<E: Fn(Float64) -> Float64>(
    exp: E,
    sources: Seq<(Seq<char>, TripwireView)>,
    now: nat,
    max_gap: nat,
    readings: Seq<(Seq<char>, Float64)>,
    next: Seq<(Seq<char>, TripwireView)>,
    evals: Seq<TripwireEval>,
    i: int,
    n: int,
)
    requires
        evaluated(exp, sources, now, max_gap, readings, next, evals),
        sorted(sources),
        0 <= i < sources.len(),
        0 <= n < next.len(),
        next[n].0 == sources[i].0,
        forall|j: int| 0 <= j < readings.len() ==> (#[trigger] readings[j]).0 != sources[i].0,
    ensures
        next[n] == sources[i],
        evals.len() == next.len(),
        evals[n].key@ == sources[i].0,
        evals[n].latched == sources[i].1.latched,
        !evals[n].online,
{
    lemma_place(sources, i);
    assert(!has_key(readings, sources[i].0));
    assert(evals[n].key@ == next[n].0);
}

/// A source without tuning that delivers is noted as seen, and nothing else
/// comes of it.
pub proof fn law_an_untuned_source_is_only_seen<E: Fn(Float64) -> Float64>(
    exp: E,
    sources: Seq<(Seq<char>, TripwireView)>,
    now: nat,
    max_gap: nat,
    readings: Seq<(Seq<char>, Float64)>,
    next: Seq<(Seq<char>, TripwireView)>,
    evals: Seq<TripwireEval>,
    j: int,
    n: int,
)
    requires
        evaluated(exp, sources, now, max_gap, readings, next, evals),
        sorted(sources),
        sorted(readings),
        0 <= j < readings.len(),
        0 <= n < next.len(),
        next[n].0 == readings[j].0,
        forall|i: int|
            0 <= i < sources.len() && (#[trigger] sources[i]).0 == readings[j].0
                ==> sources[i].1.cfg is None,
    ensures
        next[n].1.seen,
        next[n].1.cfg is None,
        evals[n].online,
        evals[n].latched == next[n].1.latched,
        forall|i: int|
            0 <= i < sources.len() && (#[trigger] sources[i]).0 == readings[j].0
                ==> next[n].1.latched == sources[i].1.latched && next[n].1.ema
                == sources[i].1.ema,
        (forall|i: int| 0 <= i < sources.len() ==> (#[trigger] sources[i]).0 != readings[j].0)
            ==> !next[n].1.latched && next[n].1.ema.state is None && next[n].1.ema.samples == 0,
{
    let k = readings[j].0;
    lemma_place(readings, j);
    assert(evals[n].key@ == next[n].0);
    if has_key(sources, k) {
        let i = place(sources, k);
        assert(sources[i].0 == k);
        assert forall|a: int| 0 <= a < sources.len() && (#[trigger] sources[a]).0
            == k implies a == i by {
            lemma_place(sources, a);
        }
        lemma_place(sources, i);
    }
}

/// Some evaluation is of the source `k`.
pub open spec fn judged(evals: Seq<TripwireEval>, k: Seq<char>) -> bool {
    exists|n: int| 0 <= n < evals.len() && (#[trigger] evals[n]).key@ == k
}

/// Some entry is of the source `k`.
pub open spec fn listed<V>(entries: Seq<(Seq<char>, V)>, k: Seq<char>) -> bool {
    exists|n: int| 0 <= n < entries.len() && (#[trigger] entries[n]).0 == k
}

/// There is one evaluation for every source that was known or delivered, and
/// for no other, and the evaluations stand in the order of the sources.
pub proof fn law_evaluations_cover_the_sources<E: Fn(Float64) -> Float64>(
    exp: E,
    sources: Seq<(Seq<char>, TripwireView)>,
    now: nat,
    max_gap: nat,
    readings: Seq<(Seq<char>, Float64)>,
    next: Seq<(Seq<char>, TripwireView)>,
    evals: Seq<TripwireEval>,
)
    requires
        evaluated(exp, sources, now, max_gap, readings, next, evals),
    ensures
        evals.len() == next.len(),
        forall|n: int| 0 <= n < evals.len() ==> (#[trigger] evals[n]).key@ == next[n].0,
        forall|a: int, b: int|
            0 <= a < b < evals.len() ==> (#[trigger] evals[a]).key@ != (#[trigger] evals[b]).key@,
        forall|k: Seq<char>| #[trigger]
            judged(evals, k) <==> listed(sources, k) || listed(readings, k),
        forall|n: int|
            0 <= n < evals.len() ==> ((#[trigger] evals[n]).online <==> listed(
                readings,
                evals[n].key@,
            )),
{
    assert forall|a: int, b: int| 0 <= a < b < evals.len() implies (#[trigger] evals[a]).key@ != (
    #[trigger] evals[b]).key@ by {
        assert(evals[a].key@ == next[a].0 && evals[b].key@ == next[b].0);
        lemma_before_irreflexive(next[a].0);
    }
    assert forall|k: Seq<char>| #[trigger] judged(evals, k) <==> listed(sources, k) || listed(
        readings,
        k,
    ) by {
        lemma_listed(sources, k);
        lemma_listed(readings, k);
        lemma_listed(next, k);
        if judged(evals, k) {
            let n = choose|n: int| 0 <= n < evals.len() && (#[trigger] evals[n]).key@ == k;
            assert(next[n].0 == k);
            assert(has_key(next, k));
        }
        if has_key(next, k) {
            let n = place(next, k);
            assert(next[n].0 == k);
            assert(evals[n].key@ == k);
        }
    }
    assert forall|n: int| 0 <= n < evals.len() implies ((#[trigger] evals[n]).online <==> listed(
        readings,
        evals[n].key@,
    )) by {
        lemma_listed(readings, next[n].0);
        assert(evals[n].online == has_key(readings, next[n].0));
    }
}

/// An entry is listed exactly if it can be looked up.
proof fn lemma_listed<V>(entries: Seq<(Seq<char>, V)>, k: Seq<char>)
    ensures
        listed(entries, k) == has_key(entries, k),
{
    if listed(entries, k) {
        let n = choose|n: int| 0 <= n < entries.len() && (#[trigger] entries[n]).0 == k;
        assert(entries[n].0 == k);
    }
    if has_key(entries, k) {
        let n = place(entries, k);
        assert(entries[n].0 == k);
    }
}

/// Of a source that there is no entry of, nothing is known: it is not latched,
/// has no tuning and no value, and has not been seen. Of another, its entry is
/// what is known.
pub proof fn law_nothing_is_known_of_others(
    sources: Seq<(Seq<char>, TripwireView)>,
    k: Seq<char>,
)
    requires
        sorted(sources),
    ensures
        !listed(sources, k) ==> {
            let st = known(sources, k);
            &&& !st.latched
            &&& st.latched_by is None
            &&& st.cfg is None
            &&& !st.seen
            &&& st.ema.state is None
            &&& st.ema.samples == 0
        },
        forall|i: int|
            0 <= i < sources.len() && (#[trigger] sources[i]).0 == k ==> known(sources, k)
                == sources[i].1,
{
    lemma_listed(sources, k);
    assert forall|i: int| 0 <= i < sources.len() && (#[trigger] sources[i]).0 == k implies known(
        sources,
        k,
    ) == sources[i].1 by {
        lemma_place(sources, i);
    }
}

} // verus!
