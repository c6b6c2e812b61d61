//! The tripwires: which sources are hot enough to call for protection.
//!
//! Whether a tripwire is latched is a fact about the system, so every source
//! is evaluated once per tick and all profiles that refer to it are handed
//! the same result.
//!
//! A source latches when its smoothed temperature reaches a threshold, or
//! rises at a given rate between two samples. It stays latched until the
//! smoothed temperature has fallen below the threshold by the hysteresis; one
//! that still rises at that rate has not fallen. A source that delivers
//! nothing keeps the state it had.

pub mod behaviour;

use crate::config::TripwireConfig;
use crate::ema::{
    advanced, integrated, law_update_is_determined, single_valued, unseeded, Ema, EmaUpdate,
    EmaView,
};
use crate::float::Float64;
use crate::source_map::{
    before, has_key, lemma_before_irreflexive, lemma_place, lemma_sorted_determined, lemma_viewed,
    lemma_viewed_sorted, lookup, place, sorted, viewed, SourceMap,
};
use crate::time::{seconds, Duration};
use vstd::prelude::*;

verus! {

/// The name of a sensor source.
pub type SourceKey = crate::config::SourceKey;

/// What one tick found of one source.
#[derive(Debug, Clone, PartialEq)]
pub struct TripwireEval {
    pub key: SourceKey,
    /// Whether protection is called for; the last known state where the
    /// source did not deliver.
    pub latched: bool,
    /// Whether the source delivered.
    pub online: bool,
}

/// What a source was latched by.
#[derive(Debug, Clone, Copy, PartialEq, Eq, Structural)]
pub enum TripKind {
    /// The smoothed temperature reached the threshold.
    Threshold,
    /// The smoothed temperature rose too fast.
    Spike,
}

impl TripKind {
    /// The name of the condition.
    pub fn as_str(&self) -> (r: &'static str)
        ensures
            r@ == match *self {
                TripKind::Threshold => "threshold"@,
                TripKind::Spike => "dT/dt spike"@,
            },
    {
        match self {
            TripKind::Threshold => "threshold",
            TripKind::Spike => "dT/dt spike",
        }
    }
}

/// The state of one source.
#[derive(Debug, Clone, Copy)]
struct SourceState {
    cfg: Option<TripwireConfig>,
    seen: bool,
    ema: Ema,
    latched: bool,
    latched_by: Option<TripKind>,
}

/// What is remembered of one source. A source without tuning was heard of but
/// never declared a tripwire, and cannot latch.
pub struct TripwireView {
    pub cfg: Option<TripwireConfig>,
    /// Whether it has delivered a reading, with tuning or without.
    pub seen: bool,
    pub ema: EmaView,
    pub latched: bool,
    pub latched_by: Option<TripKind>,
}

impl View for SourceState {
    type V = TripwireView;

    closed spec fn view(&self) -> TripwireView {
        TripwireView {
            cfg: self.cfg,
            seen: self.seen,
            ema: self.ema@,
            latched: self.latched,
            latched_by: self.latched_by,
        }
    }
}

/// A source that nothing is known of.
pub open spec fn unknown_source() -> TripwireView {
    TripwireView { cfg: None, seen: false, ema: unseeded(), latched: false, latched_by: None }
}

/// The smoothed temperature has reached the threshold.
pub open spec fn threshold_hit(cfg: TripwireConfig, value: Float64) -> bool {
    cfg.threshold_c.at_most(value)
}

/// The smoothed temperature has risen too fast: from a value that there was
/// before, over a time that has passed, in a filter with two samples.
pub open spec fn spike_hit(cfg: TripwireConfig, was: EmaView, dt: nat, is: EmaView) -> bool {
    &&& is.samples >= 2
    &&& was.value() is Some
    &&& dt > 0
    &&& cfg.spike_rate_c_per_s.at_most(
        is.value()->0.minus(was.value()->0).over(seconds(dt)),
    )
}

/// The smoothed temperature has fallen far enough for a latch to clear.
pub open spec fn cooled(cfg: TripwireConfig, value: Float64) -> bool {
    value.at_most(cfg.threshold_c.minus(cfg.hysteresis_c))
}

/// The source after a sample that left its filter as `ema`: a hit latches, and
/// a latch that was there clears when cooled, unless by a rise that is too
/// fast itself.
pub open spec fn tripped(
    st: TripwireView,
    cfg: TripwireConfig,
    now: nat,
    max_gap: nat,
    ema: EmaView,
) -> TripwireView {
    let value = ema.value()->0;
    let by_threshold = threshold_hit(cfg, value);
    let by_spike = spike_hit(cfg, st.ema, integrated(st.ema, now, max_gap), ema);
    let clears = st.latched && cooled(cfg, value) && !by_spike;
    TripwireView {
        cfg: st.cfg,
        seen: true,
        ema,
        latched: !clears && (st.latched || by_threshold || by_spike),
        latched_by: if clears {
            None
        } else if st.latched {
            st.latched_by
        } else if by_threshold {
            Some(TripKind::Threshold)
        } else if by_spike {
            Some(TripKind::Spike)
        } else {
            st.latched_by
        },
    }
}

/// `next` is the source `st` after a tick that delivered `sample`, if
/// anything. A sample of a source without tuning is noted and goes no further.
pub open spec fn source_next<E: Fn(Float64) -> Float64>(
    exp: E,
    st: TripwireView,
    now: nat,
    max_gap: nat,
    sample: Option<Float64>,
    next: TripwireView,
) -> bool {
    match (st.cfg, sample) {
        (Some(cfg), Some(x)) => {
            &&& advanced(exp, st.ema, now, cfg.ema_tau_s, x, max_gap, next.ema)
            &&& next == tripped(st, cfg, now, max_gap, next.ema)
        },
        (None, Some(_)) => next == TripwireView { seen: true, ..st },
        (_, None) => next == st,
    }
}

/// What is known of a source, or that nothing is.
pub open spec fn known(sources: Seq<(Seq<char>, TripwireView)>, k: Seq<char>) -> TripwireView {
    match lookup(sources, k) {
        Some(st) => st,
        None => unknown_source(),
    }
}

/// `next` and `evals` are what a tick makes of `sources`: one evaluation for
/// each source that was known or delivered, in key order.
pub open spec fn evaluated<E: Fn(Float64) -> Float64>(
    exp: E,
    sources: Seq<(Seq<char>, TripwireView)>,
    now: nat,
    max_gap: nat,
    readings: Seq<(Seq<char>, Float64)>,
    next: Seq<(Seq<char>, TripwireView)>,
    evals: Seq<TripwireEval>,
) -> bool {
    &&& sorted(next)
    &&& forall|k: Seq<char>| #[trigger]
        has_key(next, k) <==> has_key(sources, k) || has_key(readings, k)
    &&& forall|i: int|
        0 <= i < next.len() ==> source_next(
            exp,
            known(sources, (#[trigger] next[i]).0),
            now,
            max_gap,
            lookup(readings, next[i].0),
            next[i].1,
        )
    &&& evals.len() == next.len()
    &&& forall|i: int|
        0 <= i < evals.len() ==> {
            &&& (#[trigger] evals[i]).key@ == next[i].0
            &&& evals[i].latched == next[i].1.latched
            &&& evals[i].online == has_key(readings, next[i].0)
        }
}

impl SourceState {
    fn unknown() -> (r: SourceState)
        ensures
            r@ == unknown_source(),
    {
        SourceState { cfg: None, seen: false, ema: Ema::new(), latched: false, latched_by: None }
    }

    /// Takes a sample.
    fn step<E: Fn(Float64) -> Float64>(
        &mut self,
        now: Duration,
        x: Float64,
        max_gap: Duration,
        exp: &E,
    )
        requires
            forall|e: Float64| call_requires(*exp, (e,)),
        ensures
            source_next(*exp, old(self)@, now@, max_gap@, Some(x), final(self)@),
    {
        self.seen = true;
        let cfg: TripwireConfig = match self.cfg {
            Some(cfg) => cfg,
            None => {
                return;
            },
        };
        let update: EmaUpdate = self.ema.update(now, cfg.ema_tau_s, x, max_gap, exp);
        let was_latched: bool = self.latched;
        let threshold_hit: bool = cfg.threshold_c.le(update.value);
        let spike_hit: bool = match update.prev {
            Some(prev) => self.ema.samples() >= 2 && Duration::zero().lt(update.dt)
                && cfg.spike_rate_c_per_s.le(update.value.sub(prev).div(update.dt.as_seconds())),
            None => false,
        };
        if (threshold_hit || spike_hit) && !self.latched {
            self.latched = true;
            self.latched_by = Some(
                if threshold_hit {
                    TripKind::Threshold
                } else {
                    TripKind::Spike
                },
            );
        }
        if was_latched && !spike_hit && update.value.le(cfg.threshold_c.sub(cfg.hysteresis_c)) {
            self.latched = false;
            self.latched_by = None;
        }
    }
}

/// Evaluates every tripwire once per tick.
#[derive(Debug, Clone)]
pub struct TripwireEvaluator {
    sources: SourceMap<SourceState>,
}

impl View for TripwireEvaluator {
    type V = Seq<(Seq<char>, TripwireView)>;

    /// What is known of each source, in key order.
    closed spec fn view(&self) -> Seq<(Seq<char>, TripwireView)> {
        viewed(self.sources@)
    }
}

impl TripwireEvaluator {
    /// The sources are in key order.
    pub open spec fn wf(&self) -> bool {
        sorted(self@)
    }

    /// An evaluator that knows of no source.
    pub fn new() -> (r: TripwireEvaluator)
        ensures
            r.wf(),
            r@ == Seq::<(Seq<char>, TripwireView)>::empty(),
    {
        let r = TripwireEvaluator { sources: SourceMap::new() };
        assert(r@ =~= Seq::<(Seq<char>, TripwireView)>::empty());
        r
    }

    /// Evaluates every known source for this tick.
    ///
    /// `readings` holds the temperatures of the sources that delivered, and
    /// `exp` is the exponential function.
    pub fn evaluate<E: Fn(Float64) -> Float64>(
        &mut self,
        now: Duration,
        max_gap: Duration,
        readings: &SourceMap<Float64>,
        exp: &E,
    ) -> (r: Vec<TripwireEval>)
        requires
            old(self).wf(),
            readings.wf(),
            forall|e: Float64| call_requires(*exp, (e,)),
        ensures
            final(self).wf(),
            evaluated(*exp, old(self)@, now@, max_gap@, readings@, final(self)@, r@),
    {
        let ghost was = self@;
        self.admit_sources(readings);
        let ghost admitted = self.sources@;
        proof {
            lemma_viewed_sorted(self.sources@);
        }
        let mut evals: Vec<TripwireEval> = Vec::new();
        let n: usize = self.sources.len();
        let mut i: usize = 0;
        while i < n
            invariant
                i <= n,
                n == self.sources@.len(),
                n == admitted.len(),
                sorted(admitted),
                self.sources.wf(),
                readings.wf(),
                forall|e: Float64| call_requires(*exp, (e,)),
                forall|j: int| 0 <= j < n ==> #[trigger] self.sources@[j].0 == admitted[j].0,
                forall|j: int| i <= j < n ==> #[trigger] self.sources@[j] == admitted[j],
                forall|j: int|
                    0 <= j < i ==> source_next(
                        *exp,
                        admitted[j].1@,
                        now@,
                        max_gap@,
                        lookup(readings@, admitted[j].0),
                        (#[trigger] self.sources@[j]).1@,
                    ),
                evals@.len() == i,
                forall|j: int|
                    0 <= j < i ==> {
                        &&& (#[trigger] evals@[j]).key@ == admitted[j].0
                        &&& evals@[j].latched == self.sources@[j].1@.latched
                        &&& evals@[j].online == has_key(readings@, admitted[j].0)
                    },
            decreases n - i,
        {
            let key: SourceKey = self.sources.key_at(i).clone();
            let mut st: SourceState = *self.sources.value_at(i);
            assert(self.sources@[i as int] == admitted[i as int]);
            let online: bool = match readings.get(&key) {
                Some(x) => {
                    st.step(now, *x, max_gap, exp);
                    true
                },
                None => false,
            };
            evals.push(TripwireEval { key, latched: st.latched, online });
            let ghost before_set = self.sources@;
            self.sources.set_value_at(i, st);
            proof {
                assert forall|j: int| 0 <= j < n implies (#[trigger] self.sources@[j]) == if j
                    == i {
                    (admitted[i as int].0, st)
                } else {
                    before_set[j]
                } by {}
            }
            i = i + 1;
        }
        proof {
            let next = self@;
            lemma_viewed(self.sources@);
            lemma_viewed(admitted);
            assert forall|k: Seq<char>| #[trigger]
                has_key(next, k) <==> has_key(was, k) || has_key(readings@, k) by {
                lemma_same_keys(admitted, self.sources@, k);
                assert(has_key(viewed(admitted), k) == has_key(admitted, k));
                assert(lookup(viewed(admitted), k) is Some <==> has_key(viewed(admitted), k));
            }
            assert forall|i: int| 0 <= i < next.len() implies source_next(
                *exp,
                known(was, (#[trigger] next[i]).0),
                now@,
                max_gap@,
                lookup(readings@, next[i].0),
                next[i].1,
            ) by {
                assert(self.sources@[i].0 == admitted[i].0);
                lemma_place(viewed(admitted), i);
                assert(lookup(viewed(admitted), admitted[i].0) == Some(admitted[i].1@));
                assert(known(was, admitted[i].0) == admitted[i].1@);
            }
            assert forall|i: int| 0 <= i < evals@.len() implies {
                &&& (#[trigger] evals@[i]).key@ == next[i].0
                &&& evals@[i].latched == next[i].1.latched
                &&& evals@[i].online == has_key(readings@, next[i].0)
            } by {
                assert(self.sources@[i].0 == admitted[i].0);
            }
        }
        evals
    }

    /// Makes an entry for every source that delivers for the first time.
    fn admit_sources(&mut self, readings: &SourceMap<Float64>)
        requires
            old(self).wf(),
            readings.wf(),
        ensures
            final(self).wf(),
            forall|k: Seq<char>| #[trigger]
                lookup(final(self)@, k) == if has_key(old(self)@, k) || has_key(readings@, k) {
                    Some(known(old(self)@, k))
                } else {
                    None
                },
    {
        let ghost was = self@;
        proof {
            lemma_viewed_sorted(self.sources@);
            lemma_viewed(self.sources@);
        }
        let n: usize = readings.len();
        let mut i: usize = 0;
        while i < n
            invariant
                i <= n,
                n == readings@.len(),
                readings.wf(),
                self.wf(),
                forall|k: Seq<char>| #[trigger]
                    lookup(self@, k) == if has_key(was, k) || has_key(readings@.take(i as int), k) {
                        Some(known(was, k))
                    } else {
                        None
                    },
            decreases n - i,
        {
            let key: &SourceKey = readings.key_at(i);
            let ghost prior = self@;
            proof {
                lemma_viewed_sorted(self.sources@);
                lemma_viewed(self.sources@);
            }
            if !self.sources.contains_key(key) {
                self.sources.insert(key.clone(), SourceState::unknown());
            }
            proof {
                lemma_viewed(self.sources@);
                let k0 = key@;
                assert forall|k: Seq<char>| #[trigger]
                    lookup(self@, k) == if has_key(was, k) || has_key(
                        readings@.take(i + 1),
                        k,
                    ) {
                        Some(known(was, k))
                    } else {
                        None
                    } by {
                    lemma_take_one_more(readings@, i as int, k);
                    assert(lookup(prior, k) == if has_key(was, k) || has_key(
                        readings@.take(i as int),
                        k,
                    ) {
                        Some(known(was, k))
                    } else {
                        None
                    });
                    assert(lookup(prior, k0) is Some <==> has_key(prior, k0));
                }
            }
            i = i + 1;
        }
        assert(readings@.take(n as int) =~= readings@);
    }

    /// Sets the tuning of a source, and keeps what its filter and its latch
    /// have come to.
    pub fn set_config(&mut self, key: SourceKey, cfg: TripwireConfig)
        requires
            old(self).wf(),
        ensures
            final(self).wf(),
            forall|k: Seq<char>| #[trigger]
                lookup(final(self)@, k) == if k == key@ {
                    Some(TripwireView { cfg: Some(cfg), ..known(old(self)@, k) })
                } else {
                    lookup(old(self)@, k)
                },
            final(self)@.len() == old(self)@.len() + (if has_key(old(self)@, key@) {
                0int
            } else {
                1int
            }),
    {
        proof {
            lemma_viewed_sorted(self.sources@);
            lemma_viewed(self.sources@);
        }
        let mut st: SourceState = match self.sources.get(&key) {
            Some(st) => *st,
            None => SourceState::unknown(),
        };
        st.cfg = Some(cfg);
        self.sources.insert(key, st);
        proof {
            lemma_viewed(self.sources@);
        }
    }

    /// Forgets a source.
    pub fn remove(&mut self, key: &SourceKey)
        requires
            old(self).wf(),
        ensures
            final(self).wf(),
            forall|k: Seq<char>| #[trigger]
                lookup(final(self)@, k) == if k == key@ {
                    None
                } else {
                    lookup(old(self)@, k)
                },
            final(self)@.len() == old(self)@.len() - (if has_key(old(self)@, key@) {
                1int
            } else {
                0int
            }),
    {
        proof {
            lemma_viewed_sorted(self.sources@);
            lemma_viewed(self.sources@);
        }
        self.sources.remove(key);
        proof {
            lemma_viewed(self.sources@);
        }
    }

    /// Whether a source has delivered at least one reading.
    pub fn has_seen(&self, key: &SourceKey) -> (r: bool)
        requires
            self.wf(),
        ensures
            r == known(self@, key@).seen,
    {
        proof {
            lemma_viewed_sorted(self.sources@);
            lemma_viewed(self.sources@);
        }
        match self.sources.get(key) {
            Some(st) => st.seen,
            None => false,
        }
    }

    /// What a source is latched by.
    pub fn last_trip(&self, key: &SourceKey) -> (r: Option<TripKind>)
        requires
            self.wf(),
        ensures
            r == known(self@, key@).latched_by,
    {
        proof {
            lemma_viewed_sorted(self.sources@);
            lemma_viewed(self.sources@);
        }
        match self.sources.get(key) {
            Some(st) => st.latched_by,
            None => None,
        }
    }

    /// The number of sources known of.
    pub fn len(&self) -> (r: usize)
        ensures
            r == self@.len(),
    {
        self.sources.len()
    }

    /// Whether no source is known of.
    pub fn is_empty(&self) -> (r: bool)
        ensures
            r == (self@.len() == 0),
    {
        self.sources.is_empty()
    }
}

impl Default for TripwireEvaluator {
    fn default() -> (r: TripwireEvaluator)
        ensures
            r.wf(),
            r@ == Seq::<(Seq<char>, TripwireView)>::empty(),
    {
        TripwireEvaluator::new()
    }
}

/// A source that delivers nothing keeps its state: a latch never clears, and
/// none ever sets, by absence.
pub proof fn law_absence_changes_nothing<E: Fn(Float64) -> Float64>(
    exp: E,
    st: TripwireView,
    now: nat,
    max_gap: nat,
    next: TripwireView,
)
    requires
        source_next(exp, st, now, max_gap, None, next),
    ensures
        next == st,
{
}

/// A source without tuning never latches.
pub proof fn law_no_tuning_no_latch<E: Fn(Float64) -> Float64>(
    exp: E,
    st: TripwireView,
    now: nat,
    max_gap: nat,
    sample: Option<Float64>,
    next: TripwireView,
)
    requires
        st.cfg is None,
        !st.latched,
        source_next(exp, st, now, max_gap, sample, next),
    ensures
        !next.latched,
{
}

/// A smoothed temperature at the threshold or above it latches, where the
/// level at which a latch clears lies below the threshold.
pub proof fn law_threshold_latches<E: Fn(Float64) -> Float64>(
    exp: E,
    st: TripwireView,
    now: nat,
    max_gap: nat,
    sample: Float64,
    next: TripwireView,
)
    requires
        st.cfg is Some,
        source_next(exp, st, now, max_gap, Some(sample), next),
        threshold_hit(st.cfg->0, next.ema.value()->0),
        st.cfg->0.threshold_c.minus(st.cfg->0.hysteresis_c).below(st.cfg->0.threshold_c),
    ensures
        next.latched,
{
}

/// A smoothed temperature that rises too fast latches a source, and keeps one
/// latched that was.
pub proof fn law_spike_latches<E: Fn(Float64) -> Float64>(
    exp: E,
    st: TripwireView,
    now: nat,
    max_gap: nat,
    sample: Float64,
    next: TripwireView,
)
    requires
        st.cfg is Some,
        source_next(exp, st, now, max_gap, Some(sample), next),
        spike_hit(st.cfg->0, st.ema, integrated(st.ema, now, max_gap), next.ema),
    ensures
        next.latched,
        !st.latched && !threshold_hit(st.cfg->0, next.ema.value()->0) ==> next.latched_by
            == Some(TripKind::Spike),
{
}

/// The first sample of a source cannot latch it by rising too fast.
pub proof fn law_first_sample_is_no_spike<E: Fn(Float64) -> Float64>(
    exp: E,
    st: TripwireView,
    now: nat,
    max_gap: nat,
    sample: Float64,
    next: TripwireView,
)
    requires
        st.cfg is Some,
        !st.latched,
        st.ema == unseeded(),
        !threshold_hit(st.cfg->0, sample),
        source_next(exp, st, now, max_gap, Some(sample), next),
    ensures
        !next.latched,
{
}

/// A latch holds until the smoothed temperature has fallen below the
/// threshold by the hysteresis, and clears on that very tick, unless the
/// temperature rises too fast.
pub proof fn law_latch_clears_when_cooled<E: Fn(Float64) -> Float64>(
    exp: E,
    st: TripwireView,
    now: nat,
    max_gap: nat,
    sample: Float64,
    next: TripwireView,
)
    requires
        st.cfg is Some,
        st.latched,
        source_next(exp, st, now, max_gap, Some(sample), next),
    ensures
        next.latched <==> !cooled(st.cfg->0, next.ema.value()->0) || spike_hit(
            st.cfg->0,
            st.ema,
            integrated(st.ema, now, max_gap),
            next.ema,
        ),
        next.latched ==> next.latched_by == st.latched_by,
        !next.latched ==> next.latched_by is None,
{
}

/// A source is latched exactly when it is known by what, its filter has a
/// value exactly when it has counted a sample, and only a source with tuning
/// has a history.
pub open spec fn explained(st: TripwireView) -> bool {
    &&& st.latched <==> st.latched_by is Some
    &&& st.ema.state is Some <==> st.ema.samples >= 1
    &&& st.cfg is None ==> st.ema == unseeded() && !st.latched
}

/// Every source is.
pub open spec fn all_explained(sources: Seq<(Seq<char>, TripwireView)>) -> bool {
    forall|i: int| 0 <= i < sources.len() ==> explained((#[trigger] sources[i]).1)
}

/// Every latch is explained, on every tick.
pub proof fn law_latches_stay_explained<E: Fn(Float64) -> Float64>(
    exp: E,
    sources: Seq<(Seq<char>, TripwireView)>,
    now: nat,
    max_gap: nat,
    readings: Seq<(Seq<char>, Float64)>,
    next: Seq<(Seq<char>, TripwireView)>,
    evals: Seq<TripwireEval>,
)
    requires
        all_explained(sources),
        evaluated(exp, sources, now, max_gap, readings, next, evals),
    ensures
        all_explained(next),
{
    assert forall|i: int| 0 <= i < next.len() implies explained((#[trigger] next[i]).1) by {
        let st = known(sources, next[i].0);
        assert(explained(st)) by {
            if has_key(sources, next[i].0) {
                let j = place(sources, next[i].0);
                assert(sources[j].0 == next[i].0);
            }
        }
    }
}

/// A source has been seen as soon as it has delivered, with tuning or without,
/// and stays so.
pub proof fn law_a_reading_is_seen<E: Fn(Float64) -> Float64>(
    exp: E,
    st: TripwireView,
    now: nat,
    max_gap: nat,
    sample: Option<Float64>,
    next: TripwireView,
)
    requires
        source_next(exp, st, now, max_gap, sample, next),
    ensures
        next.seen <==> st.seen || sample is Some,
{
}

/// A second sample finds a value that was there before: a rise that counts is
/// one from an earlier value.
pub proof fn law_a_spike_has_an_earlier_value<E: Fn(Float64) -> Float64>(
    exp: E,
    st: TripwireView,
    now: nat,
    max_gap: nat,
    sample: Float64,
    next: TripwireView,
)
    requires
        explained(st),
        st.cfg is Some,
        source_next(exp, st, now, max_gap, Some(sample), next),
    ensures
        next.ema.samples >= 2 <==> st.ema.value() is Some,
{
}

/// New tuning leaves a latch in force and explained.
pub proof fn law_new_tuning_keeps_the_latch(st: TripwireView, cfg: TripwireConfig)
    requires
        explained(st),
    ensures
        ({
            let tuned = TripwireView { cfg: Some(cfg), ..st };
            &&& explained(tuned)
            &&& tuned.latched == st.latched
            &&& tuned.latched_by == st.latched_by
            &&& tuned.ema == st.ema
            &&& tuned.seen == st.seen
        }),
{
}

/// A tick evaluates every source once.
pub proof fn law_one_evaluation_per_source<E: Fn(Float64) -> Float64>(
    exp: E,
    sources: Seq<(Seq<char>, TripwireView)>,
    now: nat,
    max_gap: nat,
    readings: Seq<(Seq<char>, Float64)>,
    next: Seq<(Seq<char>, TripwireView)>,
    evals: Seq<TripwireEval>,
)
    requires
        evaluated(exp, sources, now, max_gap, readings, next, evals),
    ensures
        forall|i: int, j: int|
            0 <= i < j < evals.len() ==> (#[trigger] evals[i]).key@ != (#[trigger] evals[j]).key@,
        forall|k: Seq<char>| #[trigger]
            has_key(sources, k) ==> exists|i: int|
                0 <= i < evals.len() && (#[trigger] evals[i]).key@ == k,
{
    assert forall|i: int, j: int| 0 <= i < j < evals.len() implies (#[trigger] evals[i]).key@ != (
    #[trigger] evals[j]).key@ by {
        assert(before(next[i].0, next[j].0));
        lemma_before_irreflexive(next[i].0);
    }
    assert forall|k: Seq<char>| #[trigger] has_key(sources, k) implies exists|i: int|
        0 <= i < evals.len() && (#[trigger] evals[i]).key@ == k by {
        assert(has_key(next, k));
        let i = place(next, k);
        assert(next[i].0 == k);
        assert(evals[i].key@ == k);
    }
}

/// The same readings lead to the same states and the same evaluations, if the
/// exponential function has one value for each argument.
pub proof fn law_evaluation_is_determined<E: Fn(Float64) -> Float64>(
    exp: E,
    sources: Seq<(Seq<char>, TripwireView)>,
    now: nat,
    max_gap: nat,
    readings: Seq<(Seq<char>, Float64)>,
    next1: Seq<(Seq<char>, TripwireView)>,
    evals1: Seq<TripwireEval>,
    next2: Seq<(Seq<char>, TripwireView)>,
    evals2: Seq<TripwireEval>,
)
    requires
        single_valued(exp),
        evaluated(exp, sources, now, max_gap, readings, next1, evals1),
        evaluated(exp, sources, now, max_gap, readings, next2, evals2),
    ensures
        next1 == next2,
        evals1.len() == evals2.len(),
        forall|i: int|
            0 <= i < evals1.len() ==> {
                &&& (#[trigger] evals1[i]).key@ == evals2[i].key@
                &&& evals1[i].latched == evals2[i].latched
                &&& evals1[i].online == evals2[i].online
            },
{
    assert forall|k: Seq<char>| #[trigger] lookup(next1, k) == lookup(next2, k) by {
        assert(has_key(next1, k) == has_key(next2, k));
        if has_key(next1, k) {
            let (i, j) = (place(next1, k), place(next2, k));
            assert(next1[i].0 == k && next2[j].0 == k);
            lemma_next_is_determined(
                exp,
                known(sources, k),
                now,
                max_gap,
                lookup(readings, k),
                next1[i].1,
                next2[j].1,
            );
        }
    }
    lemma_sorted_determined(next1, next2);
}

/// A source has one next state.
proof fn lemma_next_is_determined<E: Fn(Float64) -> Float64>(
    exp: E,
    st: TripwireView,
    now: nat,
    max_gap: nat,
    sample: Option<Float64>,
    a: TripwireView,
    b: TripwireView,
)
    requires
        single_valued(exp),
        source_next(exp, st, now, max_gap, sample, a),
        source_next(exp, st, now, max_gap, sample, b),
    ensures
        a == b,
{
    if st.cfg is Some && sample is Some {
        law_update_is_determined(
            exp,
            st.ema,
            now,
            st.cfg->0.ema_tau_s,
            sample->0,
            max_gap,
            a.ema,
            b.ema,
        );
    }
}

/// Entries with the same keys in the same places have the same keys.
proof fn lemma_same_keys<V>(a: Seq<(Seq<char>, V)>, b: Seq<(Seq<char>, V)>, k: Seq<char>)
    requires
        a.len() == b.len(),
        forall|j: int| 0 <= j < a.len() ==> #[trigger] b[j].0 == a[j].0,
    ensures
        has_key(a, k) == has_key(b, k),
{
    if has_key(a, k) {
        let i = place(a, k);
        assert(a[i].0 == k);
        assert(b[i].0 == k);
    }
    if has_key(b, k) {
        let i = place(b, k);
        assert(b[i].0 == k);
        assert(a[i].0 == k);
    }
}

/// One more entry brings one more key.
proof fn lemma_take_one_more<V>(s: Seq<(Seq<char>, V)>, i: int, k: Seq<char>)
    requires
        0 <= i < s.len(),
    ensures
        has_key(s.take(i + 1), k) <==> has_key(s.take(i), k) || k == s[i].0,
{
    if has_key(s.take(i), k) {
        let j = place(s.take(i), k);
        assert(s.take(i)[j].0 == k);
        assert(s.take(i + 1)[j].0 == k);
    }
    if has_key(s.take(i + 1), k) {
        let j = place(s.take(i + 1), k);
        assert(s.take(i + 1)[j].0 == k);
        if j < i {
            assert(s.take(i)[j].0 == k);
        }
    }
    assert(s.take(i + 1)[i].0 == s[i].0);
}

} // verus!
