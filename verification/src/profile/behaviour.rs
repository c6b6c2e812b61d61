//! What a tick does, in terms of what it is given and what the profile is set
//! to.

use crate::accuracy::{amount, ample, size, slack};
use crate::config::{FoldRule, Mode};
use crate::curve::curve_value;
use crate::ema::{advanced, law_a_sample_moves_the_value_by_its_share};
use crate::float::{lemma_of_fields, lemma_signed, signed, whole, Float64};
use crate::fold::{
    exact_total, highest, law_highest_is_a_value, law_least_is_a_value, law_mean_in_range,
    law_mean_is_near, least, lemma_highest_is_number,
};
use crate::pid::law_an_update_adds_up_error_times_time;
use crate::profile::laws::{lemma_kept_contains, lemma_kept_origin, lemma_running, lemma_taken};
use crate::profile::model::{
    effective_target, evaluation, failing, kept, mode_output, noted, protected, sample, taken,
    temperature, ticked, usable_at, usable_values, ComfortView, ProfileView, TickView,
};
use crate::profile::report::{Outcome, ResultView};
use crate::rounding::INFINITE;
use crate::slew::{duty, slewed};
use crate::source_map::{has_key, lemma_place, place, sorted};
use crate::time::{is_span, seconds, NANOS_PER_SEC};
use crate::tripwire::TripwireEval;
use vstd::arithmetic::div_mod::lemma_div_is_ordered;
use vstd::prelude::*;

verus! {

/// The tick brings a sample of the source `k`.
pub open spec fn delivers(t: TickView, k: Seq<char>) -> bool {
    exists|j: int|
        0 <= j < t.readings.len() && (#[trigger] t.readings[j]).0 == k && t.readings[j].1 is Some
}

/// Comfort source `i` delivers on this tick, or its last sample is not stale.
pub open spec fn heard(v: ProfileView, t: TickView, i: int) -> bool {
    delivers(t, v.comfort[i].0) || (v.comfort[i].1.last_update matches Some(last) && t.now < last
        + v.max_staleness && 0 < v.max_staleness)
}

/// The tick's evaluation of the source `k`, the first that there is, says that
/// it is latched.
pub open spec fn latched_now(t: TickView, k: Seq<char>) -> bool {
    exists|j: int|
        0 <= j < t.tripwires.len() && (#[trigger] t.tripwires[j]).key@ == k
            && t.tripwires[j].latched && forall|a: int|
            0 <= a < j ==> (#[trigger] t.tripwires[a]).key@ != k
}

/// What is looked up is what is there.
pub(crate) proof fn lemma_sample(t: TickView, k: Seq<char>)
    requires
        sorted(t.readings),
    ensures
        sample(t.readings, k) is Some <==> delivers(t, k),
        forall|j: int|
            0 <= j < t.readings.len() && (#[trigger] t.readings[j]).0 == k ==> sample(
                t.readings,
                k,
            ) == t.readings[j].1,
{
    assert forall|j: int|
        0 <= j < t.readings.len() && (#[trigger] t.readings[j]).0 == k implies sample(
        t.readings,
        k,
    ) == t.readings[j].1 by {
        lemma_place(t.readings, j);
    }
    if has_key(t.readings, k) {
        let j = place(t.readings, k);
        assert(t.readings[j].0 == k);
    }
    if delivers(t, k) {
        let j = choose|j: int|
            0 <= j < t.readings.len() && (#[trigger] t.readings[j]).0 == k
                && t.readings[j].1 is Some;
        assert(t.readings[j].0 == k);
    }
}

/// What is found of a tripwire is what its first evaluation says.
proof fn lemma_latched(t: TickView, k: Seq<char>)
    ensures
        latched_now(t, k) <==> (evaluation(t.tripwires, k) matches Some(e) && e.latched),
{
    lemma_first_evaluation(t.tripwires, k);
    if evaluation(t.tripwires, k) is Some {
        let j = lemma_first_found(t.tripwires, k);
        if latched_now(t, k) {
            let i = choose|j: int|
                0 <= j < t.tripwires.len() && (#[trigger] t.tripwires[j]).key@ == k
                    && t.tripwires[j].latched && forall|a: int|
                    0 <= a < j ==> (#[trigger] t.tripwires[a]).key@ != k;
            assert(i <= j && j <= i);
        }
    }
}

/// What is not found is not there.
pub(crate) proof fn lemma_first_evaluation(evals: Seq<TripwireEval>, k: Seq<char>)
    ensures
        evaluation(evals, k) is None <==> forall|a: int|
            0 <= a < evals.len() ==> (#[trigger] evals[a]).key@ != k,
    decreases evals.len(),
{
    if evals.len() > 0 && evals[0].key@ != k {
        let rest = evals.drop_first();
        lemma_first_evaluation(rest, k);
        assert forall|a: int| 0 <= a < rest.len() implies rest[a] == #[trigger] evals[a + 1] by {}
        if evaluation(rest, k) is None {
            assert forall|a: int| 0 <= a < evals.len() implies (#[trigger] evals[a]).key@ != k by {
                if a > 0 {
                    assert(rest[a - 1] == evals[a]);
                }
            }
        } else {
            let b = choose|b: int| 0 <= b < rest.len() && (#[trigger] rest[b]).key@ == k;
            assert(evals[b + 1].key@ == k);
        }
    }
}

/// What is found is the first.
pub(crate) proof fn lemma_first_found(evals: Seq<TripwireEval>, k: Seq<char>) -> (j: int)
    requires
        evaluation(evals, k) is Some,
    ensures
        0 <= j < evals.len(),
        evaluation(evals, k) == Some(evals[j]),
        evals[j].key@ == k,
        forall|a: int| 0 <= a < j ==> (#[trigger] evals[a]).key@ != k,
    decreases evals.len(),
{
    if evals[0].key@ == k {
        0
    } else {
        let rest = evals.drop_first();
        let j = lemma_first_found(rest, k);
        assert(rest[j] == evals[j + 1]);
        assert forall|a: int| 0 <= a < j + 1 implies (#[trigger] evals[a]).key@ != k by {
            if a > 0 {
                assert(rest[a - 1] == evals[a]);
            }
        }
        j + 1
    }
}

/// A sample moves the smoothed temperature of a comfort source by the part of
/// the distance that the source's own time constant and the time since its
/// last sample give, no more than the tick gap bound of it: on the first tick,
/// and on every later one that commands a duty. `s` is the smoothed temperature
/// before, as of the time `last`, and `x` the sample.
pub proof fn law_comfort_is_smoothed_by_its_time_constant<E: Fn(Float64) -> Float64>(
    exp: E,
    v: ProfileView,
    t: TickView,
    w: ProfileView,
    r: ResultView,
    i: int,
    j: int,
    x: Float64,
    s: Float64,
    last: nat,
    dt: nat,
)
    requires
        v.mode == Mode::Curve || v.mode == Mode::TargetTemp,
        sorted(t.readings),
        ticked(exp, v, t, w, r),
        r.outcome matches Outcome::Command { failsafe, .. } ==> !failsafe,
        0 <= i < v.comfort.len(),
        0 <= j < t.readings.len(),
        t.readings[j] == (v.comfort[i].0, Some(x)),
        v.comfort[i].1.ema.state == Some((s, last)),
        dt == (if t.now <= last {
            0
        } else if t.now - last <= v.max_tick_gap {
            t.now - last
        } else {
            v.max_tick_gap as int
        }),
    ensures
        w.comfort.len() == v.comfort.len(),
        w.comfort[i].0 == v.comfort[i].0,
        w.comfort[i].1.tau_s == v.comfort[i].1.tau_s,
        w.comfort[i].1.required == v.comfort[i].1.required,
        w.comfort[i].1.last_update == Some(t.now),
        exists|d: Float64| #[trigger]
            call_ensures(exp, (seconds(dt).opposite().over(v.comfort[i].1.tau_s),), d)
                && w.comfort[i].1.ema.state == Some(
                (s.plus(whole(1).minus(d).times(x.minus(s))), t.now),
            ),
{
    let c = lemma_filters(exp, v, t, w, r, i);
    lemma_sample(t, v.comfort[i].0);
    assert(t.readings[j].0 == v.comfort[i].0);
    law_a_sample_moves_the_value_by_its_share(
        exp,
        v.comfort[i].1.ema,
        t.now,
        v.comfort[i].1.tau_s,
        x,
        v.max_tick_gap,
        w.comfort[i].1.ema,
        s,
        last,
        dt,
    );
}

/// The first sample of a comfort source is its smoothed temperature.
pub proof fn law_the_first_sample_is_the_temperature<E: Fn(Float64) -> Float64>(
    exp: E,
    v: ProfileView,
    t: TickView,
    w: ProfileView,
    r: ResultView,
    i: int,
    j: int,
    x: Float64,
)
    requires
        v.mode == Mode::Curve || v.mode == Mode::TargetTemp,
        sorted(t.readings),
        ticked(exp, v, t, w, r),
        r.outcome matches Outcome::Command { failsafe, .. } ==> !failsafe,
        0 <= i < v.comfort.len(),
        0 <= j < t.readings.len(),
        t.readings[j] == (v.comfort[i].0, Some(x)),
        v.comfort[i].1.ema.state is None,
    ensures
        w.comfort[i].1.ema.state == Some((x, t.now)),
        w.comfort[i].1.last_update == Some(t.now),
{
    let c = lemma_filters(exp, v, t, w, r, i);
    lemma_sample(t, v.comfort[i].0);
    assert(t.readings[j].0 == v.comfort[i].0);
}

/// What the filters of a tick that takes samples come to.
proof fn lemma_filters<E: Fn(Float64) -> Float64>(
    exp: E,
    v: ProfileView,
    t: TickView,
    w: ProfileView,
    r: ResultView,
    i: int,
) -> (c: Seq<(Seq<char>, ComfortView)>)
    requires
        v.mode == Mode::Curve || v.mode == Mode::TargetTemp,
        ticked(exp, v, t, w, r),
        r.outcome matches Outcome::Command { failsafe, .. } ==> !failsafe,
        0 <= i < v.comfort.len(),
    ensures
        c == w.comfort,
        w.comfort.len() == v.comfort.len(),
        w.comfort[i].0 == v.comfort[i].0,
        w.comfort[i].1.tau_s == v.comfort[i].1.tau_s,
        w.comfort[i].1.required == v.comfort[i].1.required,
        match sample(t.readings, v.comfort[i].0) {
            Some(x) => {
                &&& w.comfort[i].1.last_update == Some(t.now)
                &&& advanced(
                    exp,
                    v.comfort[i].1.ema,
                    t.now,
                    v.comfort[i].1.tau_s,
                    x,
                    v.max_tick_gap,
                    w.comfort[i].1.ema,
                )
            },
            None => w.comfort[i].1 == v.comfort[i].1,
        },
{
    let known = noted(v.comfort, t.readings, t.now);
    assert(known[i].0 == v.comfort[i].0);
    if v.started {
        let u = lemma_running(exp, v, t, w, r);
        lemma_taken(exp, v, t, u.comfort);
        assert(u.comfort[i].0 == known[i].0);
    } else {
        lemma_taken(exp, v, t, w.comfort);
        assert(w.comfort[i].0 == known[i].0);
    }
    w.comfort
}

/// A comfort source that delivers nothing is as it was after any tick.
pub proof fn law_a_silent_source_is_as_it_was<E: Fn(Float64) -> Float64>(
    exp: E,
    v: ProfileView,
    t: TickView,
    w: ProfileView,
    r: ResultView,
    i: int,
)
    requires
        sorted(t.readings),
        ticked(exp, v, t, w, r),
        0 <= i < v.comfort.len(),
        !delivers(t, v.comfort[i].0),
    ensures
        w.comfort.len() == v.comfort.len(),
        w.comfort[i] == v.comfort[i],
{
    lemma_sample(t, v.comfort[i].0);
    if v.mode == Mode::Curve || v.mode == Mode::TargetTemp {
        let known = noted(v.comfort, t.readings, t.now);
        assert(known[i] == v.comfort[i]);
        if !v.started {
            lemma_taken(exp, v, t, w.comfort);
            assert(w.comfort[i].0 == v.comfort[i].0);
        } else if !failing(v, t) {
            let u = lemma_running(exp, v, t, w, r);
            lemma_taken(exp, v, t, u.comfort);
            assert(u.comfort[i].0 == v.comfort[i].0);
        }
    }
}

/// The fail-safe moves neither a filter nor the controller.
pub proof fn law_the_fail_safe_moves_nothing<E: Fn(Float64) -> Float64>(
    exp: E,
    v: ProfileView,
    t: TickView,
    w: ProfileView,
    r: ResultView,
    i: int,
)
    requires
        sorted(t.readings),
        ticked(exp, v, t, w, r),
        r.outcome matches Outcome::Command { failsafe, .. } && failsafe,
        0 <= i < v.comfort.len(),
    ensures
        w.pid == v.pid,
        w.comfort.len() == v.comfort.len(),
        w.comfort[i].0 == v.comfort[i].0,
        w.comfort[i].1.ema == v.comfort[i].1.ema,
{
    let known = noted(v.comfort, t.readings, t.now);
    assert(known[i].0 == v.comfort[i].0);
    if !failing(v, t) {
        let u = lemma_running(exp, v, t, w, r);
        lemma_taken(exp, v, t, u.comfort);
        assert(u.comfort[i].0 == v.comfort[i].0);
        if usable_values(u, t).len() == 0 {
            if sample(t.readings, v.comfort[i].0) is Some {
                assert(usable_at(u, t)(i) is Some);
                lemma_kept_contains(u.comfort.len(), usable_at(u, t), i);
            }
        }
    }
}

/// Comfort source `i` has a say in the temperature of a tick that leaves the
/// comfort sources as `after`: it is heard, and has a smoothed temperature.
pub open spec fn counts(
    v: ProfileView,
    t: TickView,
    after: Seq<(Seq<char>, ComfortView)>,
    i: int,
) -> bool {
    0 <= i < v.comfort.len() && heard(v, t, i) && after[i].1.ema.state is Some
}

/// The smoothed temperature of comfort source `i`.
pub open spec fn smoothed(after: Seq<(Seq<char>, ComfortView)>, i: int) -> Float64 {
    (after[i].1.ema.state->0).0
}

/// How many of the first `n` comfort sources count.
pub open spec fn counting(
    v: ProfileView,
    t: TickView,
    after: Seq<(Seq<char>, ComfortView)>,
    n: nat,
) -> nat
    decreases n,
{
    if n == 0 {
        0
    } else {
        counting(v, t, after, (n - 1) as nat) + if counts(v, t, after, n - 1) {
            1nat
        } else {
            0nat
        }
    }
}

/// What those add up to.
pub open spec fn counted_total(
    v: ProfileView,
    t: TickView,
    after: Seq<(Seq<char>, ComfortView)>,
    n: nat,
) -> real
    decreases n,
{
    if n == 0 {
        0real
    } else {
        counted_total(v, t, after, (n - 1) as nat) + if counts(v, t, after, n - 1) {
            amount(smoothed(after, n - 1))
        } else {
            0real
        }
    }
}

/// What a filtered profile has to say is what those that count have to say.
pub(crate) proof fn lemma_usable<E: Fn(Float64) -> Float64>(
    exp: E,
    v: ProfileView,
    t: TickView,
    u: ProfileView,
)
    requires
        sorted(t.readings),
        taken(exp, v, t, u.comfort),
        u == (ProfileView { comfort: u.comfort, ..v }),
    ensures
        u.comfort.len() == v.comfort.len(),
        forall|i: int|
            0 <= i < v.comfort.len() ==> #[trigger] usable_at(u, t)(i) == (if counts(
                v,
                t,
                u.comfort,
                i,
            ) {
                Some(smoothed(u.comfort, i))
            } else {
                None
            }),
{
    lemma_taken(exp, v, t, u.comfort);
    assert forall|i: int| 0 <= i < v.comfort.len() implies #[trigger] usable_at(u, t)(i) == (
    if counts(v, t, u.comfort, i) {
        Some(smoothed(u.comfort, i))
    } else {
        None
    }) by {
        assert(u.comfort[i].0 == v.comfort[i].0);
        lemma_sample(t, v.comfort[i].0);
    }
}

/// The values that count, one by one and all together.
proof fn lemma_counted(v: ProfileView, t: TickView, u: ProfileView, n: nat)
    requires
        n <= v.comfort.len(),
        forall|i: int|
            0 <= i < v.comfort.len() ==> #[trigger] usable_at(u, t)(i) == (if counts(
                v,
                t,
                u.comfort,
                i,
            ) {
                Some(smoothed(u.comfort, i))
            } else {
                None
            }),
    ensures
        kept(n, usable_at(u, t)).len() == counting(v, t, u.comfort, n),
        exact_total(kept(n, usable_at(u, t))) == counted_total(v, t, u.comfort, n),
    decreases n,
{
    if n > 0 {
        let k = (n - 1) as nat;
        lemma_counted(v, t, u, k);
        assert(usable_at(u, t)(k as int) == (if counts(v, t, u.comfort, k as int) {
            Some(smoothed(u.comfort, k as int))
        } else {
            None
        }));
        if counts(v, t, u.comfort, k as int) {
            let rest = kept(k, usable_at(u, t));
            let all = rest.push(smoothed(u.comfort, k as int));
            assert(kept(n, usable_at(u, t)) == all);
            assert(all.drop_last() =~= rest);
        }
    }
}

/// The temperature `temp` is what the comfort sources that count fold into: the
/// hottest of them, where NaN does not count, or their mean. `m` is a bound on
/// the sizes of their temperatures.
pub open spec fn folds_into(
    v: ProfileView,
    t: TickView,
    after: Seq<(Seq<char>, ComfortView)>,
    m: real,
    temp: Float64,
) -> bool {
    let n = counting(v, t, after, v.comfort.len());
    &&& n > 0
    &&& v.fold == FoldRule::Max ==> {
        &&& forall|i: int| #[trigger]
            counts(v, t, after, i) && !smoothed(after, i).nan() ==> smoothed(after, i).at_most(temp)
        &&& (exists|i: int| #[trigger] counts(v, t, after, i) && !smoothed(after, i).nan())
            ==> exists|i: int| #[trigger] counts(v, t, after, i) && smoothed(after, i) == temp
    }
    &&& v.fold == FoldRule::Avg && n <= 0x100_0000_0000 && (forall|i: int| #[trigger]
        counts(v, t, after, i) ==> smoothed(after, i).finite()) ==> {
        &&& exists|i: int| #[trigger] counts(v, t, after, i) && smoothed(after, i).at_most(temp)
        &&& exists|i: int| #[trigger] counts(v, t, after, i) && temp.at_most(smoothed(after, i))
        &&& 1real <= m && n as real * m <= ample() && (forall|i: int| #[trigger]
            counts(v, t, after, i) ==> size(amount(smoothed(after, i))) <= m) ==> size(
            amount(temp) - counted_total(v, t, after, v.comfort.len()) / n as real,
        ) <= n as real * slack(m)
    }
}

/// The comfort sources that count fold into the temperature of the tick.
proof fn lemma_folds<E: Fn(Float64) -> Float64>(
    exp: E,
    v: ProfileView,
    t: TickView,
    u: ProfileView,
    m: real,
)
    requires
        sorted(t.readings),
        taken(exp, v, t, u.comfort),
        u == (ProfileView { comfort: u.comfort, ..v }),
        usable_values(u, t).len() > 0,
    ensures
        folds_into(v, t, u.comfort, m, temperature(u, t)),
{
    let len = v.comfort.len();
    let at = usable_at(u, t);
    let values = usable_values(u, t);
    let temp = temperature(u, t);
    lemma_usable(exp, v, t, u);
    lemma_counted(v, t, u, len);
    assert forall|i: int| #[trigger] counts(v, t, u.comfort, i) implies values.contains(
        smoothed(u.comfort, i),
    ) by {
        assert(at(i) == Some(smoothed(u.comfort, i)));
        lemma_kept_contains(len, at, i);
    }
    if v.fold == FoldRule::Max {
        lemma_folds_high(v, t, u);
    } else if values.len() <= 0x100_0000_0000 && (forall|i: int| #[trigger]
        counts(v, t, u.comfort, i) ==> smoothed(u.comfort, i).finite()) {
        assert forall|j: int| 0 <= j < values.len() implies (#[trigger] values[j]).finite() by {
            let i = lemma_kept_origin(len, at, j);
            assert(at(i) is Some);
            assert(counts(v, t, u.comfort, i));
        }
        law_highest_is_a_value(values);
        law_least_is_a_value(values);
        let a = choose|a: int| 0 <= a < values.len() && least(values) == #[trigger] values[a];
        let b = choose|b: int| 0 <= b < values.len() && highest(values) == #[trigger] values[b];
        law_mean_in_range(values, values[a], values[b]);
        let i = lemma_kept_origin(len, at, a);
        assert(at(i) is Some);
        assert(counts(v, t, u.comfort, i) && smoothed(u.comfort, i).at_most(temp));
        let j = lemma_kept_origin(len, at, b);
        assert(at(j) is Some);
        assert(counts(v, t, u.comfort, j) && temp.at_most(smoothed(u.comfort, j)));
        if 1real <= m && values.len() as real * m <= ample() && (forall|i: int| #[trigger]
            counts(v, t, u.comfort, i) ==> size(amount(smoothed(u.comfort, i))) <= m) {
            assert forall|j: int| 0 <= j < values.len() implies (#[trigger] values[j]).finite()
                && size(amount(values[j])) <= m by {
                let i = lemma_kept_origin(len, at, j);
                assert(at(i) is Some);
                assert(counts(v, t, u.comfort, i));
            }
            law_mean_is_near(values, m);
        }
    }
}

/// The hottest of the sources that count.
proof fn lemma_folds_high(v: ProfileView, t: TickView, u: ProfileView)
    requires
        v.fold == FoldRule::Max,
        u.fold == v.fold,
        u.comfort.len() == v.comfort.len(),
        forall|i: int|
            0 <= i < v.comfort.len() ==> #[trigger] usable_at(u, t)(i) == (if counts(
                v,
                t,
                u.comfort,
                i,
            ) {
                Some(smoothed(u.comfort, i))
            } else {
                None
            }),
        forall|i: int| #[trigger]
            counts(v, t, u.comfort, i) ==> usable_values(u, t).contains(smoothed(u.comfort, i)),
    ensures
        forall|i: int| #[trigger]
            counts(v, t, u.comfort, i) && !smoothed(u.comfort, i).nan() ==> smoothed(
                u.comfort,
                i,
            ).at_most(temperature(u, t)),
        (exists|i: int| #[trigger] counts(v, t, u.comfort, i) && !smoothed(u.comfort, i).nan())
            ==> exists|i: int| #[trigger]
            counts(v, t, u.comfort, i) && smoothed(u.comfort, i) == temperature(u, t),
{
    let len = v.comfort.len();
    let at = usable_at(u, t);
    let values = usable_values(u, t);
    let temp = temperature(u, t);
    lemma_highest_among(values);
    assert forall|i: int| #[trigger]
        counts(v, t, u.comfort, i) && !smoothed(u.comfort, i).nan() implies smoothed(
        u.comfort,
        i,
    ).at_most(temp) by {
        let j = choose|j: int| 0 <= j < values.len() && values[j] == smoothed(u.comfort, i);
        assert(values[j].at_most(temp));
    }
    if exists|i: int| #[trigger] counts(v, t, u.comfort, i) && !smoothed(u.comfort, i).nan() {
        let i = choose|i: int| #[trigger]
            counts(v, t, u.comfort, i) && !smoothed(u.comfort, i).nan();
        let j = choose|j: int| 0 <= j < values.len() && values[j] == smoothed(u.comfort, i);
        assert(!values[j].nan());
        let b = choose|b: int| 0 <= b < values.len() && highest(values) == #[trigger] values[b];
        let a = lemma_kept_origin(len, at, b);
        assert(at(a) is Some);
        assert(counts(v, t, u.comfort, a) && smoothed(u.comfort, a) == temp);
    }
}

/// The highest of several values is no lower than any that is a number, and is
/// one of them, if one is.
proof fn lemma_highest_among(values: Seq<Float64>)
    ensures
        forall|j: int|
            0 <= j < values.len() && !(#[trigger] values[j]).nan() ==> values[j].at_most(
                highest(values),
            ),
        (exists|j: int| 0 <= j < values.len() && !(#[trigger] values[j]).nan()) ==> exists|b: int|
            0 <= b < values.len() && highest(values) == #[trigger] values[b],
    decreases values.len(),
{
    if values.len() > 0 {
        let rest = values.drop_last();
        let last = values.len() - 1;
        lemma_highest_among(rest);
        lemma_highest_is_number(rest);
        lemma_signed(true, INFINITE as nat);
        lemma_of_fields(values[last]);
        assert(values.last() == values[last]);
        assert forall|j: int| 0 <= j < rest.len() implies rest[j] == #[trigger] values[j] by {}
        assert forall|j: int|
            0 <= j < values.len() && !(#[trigger] values[j]).nan() implies values[j].at_most(
            highest(values),
        ) by {
            if j < last {
                assert(rest[j].at_most(highest(rest)));
            }
        }
        if exists|j: int| 0 <= j < values.len() && !(#[trigger] values[j]).nan() {
            if highest(values) == values[last] {
            } else if exists|j: int| 0 <= j < rest.len() && !(#[trigger] rest[j]).nan() {
                let b = choose|b: int| 0 <= b < rest.len() && highest(rest) == #[trigger] rest[b];
                assert(values[b] == highest(values));
            } else {
                lemma_nothing_counts(rest);
                let j = choose|j: int| 0 <= j < values.len() && !(#[trigger] values[j]).nan();
                if j < last {
                    assert(!rest[j].nan());
                }
                assert(highest(values) == values[last]);
            }
        }
    }
}

/// Where nothing is a number, the highest is the lowest there is.
proof fn lemma_nothing_counts(values: Seq<Float64>)
    requires
        forall|j: int| 0 <= j < values.len() ==> (#[trigger] values[j]).nan(),
    ensures
        highest(values) == signed(true, INFINITE as nat),
    decreases values.len(),
{
    lemma_signed(true, INFINITE as nat);
    if values.len() > 0 {
        let rest = values.drop_last();
        assert forall|j: int| 0 <= j < rest.len() implies (#[trigger] rest[j]).nan() by {
            assert(rest[j] == values[j]);
        }
        lemma_nothing_counts(rest);
        assert(values.last() == values[values.len() - 1]);
    }
}

/// The duty `goal` is the highest of `out`, of what the latched ones among the
/// profile's tripwires ask for, and of `floor` where there is one; NaN does not
/// count.
pub open spec fn highest_asked(
    v: ProfileView,
    t: TickView,
    out: Float64,
    floor: Option<Float64>,
    goal: Float64,
) -> bool {
    &&& out.nan() || out.at_most(goal)
    &&& floor matches Some(least) ==> least.nan() || least.at_most(goal)
    &&& forall|i: int|
        0 <= i < v.tripwires.len() && latched_now(t, (#[trigger] v.tripwires[i]).0) ==> (
        v.tripwires[i].1.nan() || v.tripwires[i].1.at_most(goal))
    &&& goal == out || floor == Some(goal) || exists|i: int|
        0 <= i < v.tripwires.len() && latched_now(t, (#[trigger] v.tripwires[i]).0)
            && v.tripwires[i].1 == goal
}

/// Protection is the highest of what is asked for.
proof fn lemma_highest_asked(v: ProfileView, t: TickView, out: Float64, n: nat)
    requires
        n <= v.tripwires.len(),
    ensures
        ({
            let goal = protected(v.tripwires.take(n as int), t.tripwires, out);
            &&& out.nan() || out.at_most(goal)
            &&& forall|i: int|
                0 <= i < n && latched_now(t, (#[trigger] v.tripwires[i]).0) ==> (
                v.tripwires[i].1.nan() || v.tripwires[i].1.at_most(goal))
            &&& goal == out || exists|i: int|
                0 <= i < n && latched_now(t, (#[trigger] v.tripwires[i]).0) && v.tripwires[i].1
                    == goal
        }),
    decreases n,
{
    let some = v.tripwires.take(n as int);
    let goal = protected(some, t.tripwires, out);
    if n > 0 {
        let k = n - 1;
        let rest = v.tripwires.take(k);
        let before = protected(rest, t.tripwires, out);
        lemma_highest_asked(v, t, out, k as nat);
        assert(some.drop_last() =~= rest);
        assert(some.last() == v.tripwires[k]);
        lemma_latched(t, v.tripwires[k].0);
        assert forall|i: int|
            0 <= i < n && latched_now(t, (#[trigger] v.tripwires[i]).0) implies (
        v.tripwires[i].1.nan() || v.tripwires[i].1.at_most(goal)) by {
            if i < k {
                assert(v.tripwires[i].1.nan() || v.tripwires[i].1.at_most(before));
            }
        }
        if goal == before && before != out {
            let i = choose|i: int|
                0 <= i < k && latched_now(t, (#[trigger] v.tripwires[i]).0) && v.tripwires[i].1
                    == before;
            assert(latched_now(t, v.tripwires[i].0));
        }
    }
}

/// The time since the last tick.
pub open spec fn waited(v: ProfileView, now: nat, dt: nat) -> bool {
    match v.last_tick {
        Some(last) => dt == if now >= last {
            now - last
        } else {
            0
        },
        None => dt == 0,
    }
}

/// A command of a temperature-driven profile follows the temperature that its
/// comfort sources fold into: a curve gives the duty at that temperature, or
/// the controller the one for the error from the temperature to hold, over the
/// time since the last tick, no more than the tick gap bound of it. That is
/// raised to what the latched tripwires ask for and to the least duty, and
/// approached from the last commanded duty over all the time since the last
/// tick. Returned are the temperature, the mode's duty and the duty aimed for.
pub proof fn law_a_command_follows_the_temperature<E: Fn(Float64) -> Float64>(
    exp: E,
    v: ProfileView,
    t: TickView,
    w: ProfileView,
    r: ResultView,
    pwm: Float64,
    dt: nat,
    m: real,
) -> (made: (Float64, Float64, Float64))
    requires
        v.mode == Mode::Curve || v.mode == Mode::TargetTemp,
        v.sound(),
        sorted(t.readings),
        waited(v, t.now, dt),
        ticked(exp, v, t, w, r),
        r.outcome == (Outcome::Command { pwm, failsafe: false }),
    ensures
        v.started,
        ({
            let (temp, out, goal) = made;
            let step = if dt <= v.max_tick_gap {
                dt
            } else {
                v.max_tick_gap
            };
            &&& folds_into(v, t, w.comfort, m, temp)
            &&& v.mode == Mode::Curve ==> v.curve is Some && out == curve_value(
                v.curve->0,
                temp,
            ) && w.pid is None
            &&& v.mode == Mode::TargetTemp ==> {
                let error = temp.minus(
                    match v.setpoint_c {
                        Some(setpoint) => setpoint,
                        None => whole(0),
                    },
                );
                &&& v.pid is Some
                &&& out == v.pid->0.output(error, step)
                &&& w.pid == Some(v.pid->0.updated(error, step))
                &&& w.pid->0.last_error == Some(error)
            }
            &&& highest_asked(v, t, out, Some(v.min_duty), goal)
            &&& pwm == duty(slewed(t.last_commanded_pwm, goal, v.slew.up, v.slew.down, dt))
        }),
{
    let u = lemma_running(exp, v, t, w, r);
    let temp = temperature(u, t);
    let out = mode_output(v, t.now, temp);
    let shielded = protected(v.tripwires, t.tripwires, out);
    let goal = shielded.larger(v.min_duty);
    lemma_taken(exp, v, t, u.comfort);
    lemma_folds(exp, v, t, u, m);
    lemma_highest_asked(v, t, out, v.tripwires.len());
    assert(v.tripwires.take(v.tripwires.len() as int) =~= v.tripwires);
    assert(goal == effective_target(v, t, temp));
    assert forall|i: int|
        0 <= i < v.tripwires.len() && latched_now(t, (#[trigger] v.tripwires[i]).0) implies (
    v.tripwires[i].1.nan() || v.tripwires[i].1.at_most(goal)) by {
        assert(v.tripwires[i].1.nan() || v.tripwires[i].1.at_most(shielded));
    }
    (temp, out, goal)
}

/// A static profile aims for its fixed duty, or nothing where there is none,
/// raised to what the latched tripwires ask for, and approaches that from the
/// last commanded duty over all the time since the last tick. Returned is the
/// duty aimed for.
pub proof fn law_a_static_command_follows_the_fixed_duty<E: Fn(Float64) -> Float64>(
    exp: E,
    v: ProfileView,
    t: TickView,
    w: ProfileView,
    r: ResultView,
    dt: nat,
) -> (goal: Float64)
    requires
        v.mode == Mode::StaticPercent,
        waited(v, t.now, dt),
        ticked(exp, v, t, w, r),
    ensures
        highest_asked(
            v,
            t,
            match v.static_percent {
                Some(percent) => percent,
                None => whole(0),
            },
            None,
            goal,
        ),
        r.outcome == (Outcome::Command {
            pwm: duty(slewed(t.last_commanded_pwm, goal, v.slew.up, v.slew.down, dt)),
            failsafe: false,
        }),
{
    let base = match v.static_percent {
        Some(percent) => percent,
        None => whole(0),
    };
    lemma_highest_asked(v, t, base, v.tripwires.len());
    assert(v.tripwires.take(v.tripwires.len() as int) =~= v.tripwires);
    protected(v.tripwires, t.tripwires, base)
}

/// A controller is advanced by the time since the last tick, or by the tick gap
/// bound where that is less: with an integral gain, and while the output is in
/// range, its integral grows by the error times that, in seconds.
pub proof fn law_the_integral_grows_by_error_times_time<E: Fn(Float64) -> Float64>(
    exp: E,
    v: ProfileView,
    t: TickView,
    w: ProfileView,
    r: ResultView,
    pwm: Float64,
    dt: nat,
    step: nat,
    error: Float64,
    sum: Float64,
    rate: Float64,
)
    requires
        v.mode == Mode::TargetTemp,
        v.sound(),
        sorted(t.readings),
        is_span(t.now),
        is_span(v.max_tick_gap),
        waited(v, t.now, dt),
        step == (if dt <= v.max_tick_gap {
            dt
        } else {
            v.max_tick_gap
        }),
        ticked(exp, v, t, w, r),
        r.outcome == (Outcome::Command { pwm, failsafe: false }),
        w.pid->0.last_error == Some(error),
        sum == (if step > 0 && whole(0).below(v.pid->0.gains.ki) {
            v.pid->0.integral.plus(error.times(seconds(step)))
        } else {
            v.pid->0.integral
        }),
        rate == (match v.pid->0.last_error {
            Some(prev) if step > 0 => error.minus(prev).over(seconds(step)),
            _ => whole(0),
        }),
    ensures
        v.pid is Some,
        w.pid is Some,
        w.pid->0.gains == v.pid->0.gains,
        ({
            let k = v.pid->0.gains;
            let raw = k.kp.times(error).plus(k.ki.times(sum)).plus(k.kd.times(rate));
            &&& !whole(0).below(k.ki) ==> w.pid->0.integral == v.pid->0.integral
            &&& whole(0).at_most(raw) && raw.at_most(whole(100)) ==> w.pid->0.integral == sum
        }),
{
    let made = law_a_command_follows_the_temperature(exp, v, t, w, r, pwm, dt, 0real);
    let k = v.pid->0.gains;
    let raw = k.kp.times(error).plus(k.ki.times(sum)).plus(k.kd.times(rate));
    assert(is_span(step)) by {
        if dt <= v.max_tick_gap && v.last_tick is Some {
            lemma_div_is_ordered(dt as int, t.now as int, NANOS_PER_SEC as int);
        }
    }
    law_an_update_adds_up_error_times_time(v.pid->0, error, step, seconds(step), sum, rate, raw);
}

} // verus!
