//! What a tick reports: one outcome, and the faults that go with it.

use crate::config::SourceKey;
use crate::float::{whole, Float64};
use crate::text::{bool_str, bool_text};
use crate::time::{seconds_of, tenths_of, Duration};
use vstd::prelude::*;
use vstd::string::StringExecFns;

verus! {

/// What a profile asks of its port on one tick.
#[derive(Debug, Clone, Copy, PartialEq)]
pub enum Outcome {
    /// Emit `pwm`. The fail-safe command is the one with the flag set; it
    /// goes past the controller, the floors and the slew limiter.
    Command { pwm: Float64, failsafe: bool },
    /// Leave the port alone: the cold-start tick, or a port that the device
    /// drives by itself.
    NoCommand,
}

/// What went wrong on a tick.
#[derive(Debug, Clone, Copy, PartialEq, Eq, Structural)]
pub enum FaultKind {
    /// A comfort source has no usable value.
    ComfortSourceMissing,
    /// A comfort source has been silent for too long.
    ComfortSourceStale,
    /// A tripwire source did not deliver.
    TripwireSourceLost,
    /// More time has passed since the last tick than is integrated at once.
    ClampedTickGap,
}

/// The stable label of a kind of fault.
pub open spec fn kind_label(kind: FaultKind) -> Seq<char> {
    match kind {
        FaultKind::ComfortSourceMissing => "comfort-source-missing"@,
        FaultKind::ComfortSourceStale => "comfort-source-stale"@,
        FaultKind::TripwireSourceLost => "tripwire-source-lost"@,
        FaultKind::ClampedTickGap => "clamped-tick-gap"@,
    }
}

impl FaultKind {
    /// The stable label of the kind, for machines to read.
    pub fn as_str(self) -> (r: &'static str)
        ensures
            r@ == kind_label(self),
    {
        match self {
            FaultKind::ComfortSourceMissing => "comfort-source-missing",
            FaultKind::ComfortSourceStale => "comfort-source-stale",
            FaultKind::TripwireSourceLost => "tripwire-source-lost",
            FaultKind::ClampedTickGap => "clamped-tick-gap",
        }
    }
}

/// How serious a fault is.
#[derive(Debug, Clone, Copy, PartialEq, Eq, Structural)]
pub enum Severity {
    /// A source that the port cannot do without is unusable.
    Error,
    /// The port is degraded but under control.
    Warning,
}

/// A fault that goes with a tick.
#[derive(Debug, Clone, PartialEq)]
pub struct Fault {
    /// The sensor source; `<tick-gap>` for a fault of the loop itself.
    pub source: SourceKey,
    pub kind: FaultKind,
    pub severity: Severity,
    /// A text for people to read; it names the profile.
    pub message: String,
}

/// A fault, with its texts as sequences of characters.
#[verifier::ext_equal]
pub struct FaultView {
    pub source: Seq<char>,
    pub kind: FaultKind,
    pub severity: Severity,
    pub message: Seq<char>,
}

impl View for Fault {
    type V = FaultView;

    open spec fn view(&self) -> FaultView {
        FaultView {
            source: self.source@,
            kind: self.kind,
            severity: self.severity,
            message: self.message@,
        }
    }
}

/// Several faults, in order.
pub open spec fn fault_views(faults: Seq<Fault>) -> Seq<FaultView> {
    faults.map_values(|f: Fault| f@)
}

/// What one tick of a profile gives.
#[derive(Debug, Clone, PartialEq)]
#[must_use]
pub struct TickResult {
    pub outcome: Outcome,
    pub faults: Vec<Fault>,
}

/// What one tick of a profile gives, with the faults as they read.
#[verifier::ext_equal]
pub struct ResultView {
    pub outcome: Outcome,
    pub faults: Seq<FaultView>,
}

impl View for TickResult {
    type V = ResultView;

    open spec fn view(&self) -> ResultView {
        ResultView { outcome: self.outcome, faults: fault_views(self.faults@) }
    }
}

impl TickResult {
    /// The duty to emit; none where the port is left alone.
    pub fn pwm(&self) -> (r: Option<Float64>)
        ensures
            r == match self.outcome {
                Outcome::Command { pwm, .. } => Some(pwm),
                Outcome::NoCommand => None,
            },
    {
        match self.outcome {
            Outcome::Command { pwm, .. } => Some(pwm),
            Outcome::NoCommand => None,
        }
    }

    /// Whether this is the fail-safe command.
    pub fn is_failsafe(&self) -> (r: bool)
        ensures
            r == (self.outcome matches Outcome::Command { failsafe, .. } && failsafe),
    {
        match self.outcome {
            Outcome::Command { failsafe, .. } => failsafe,
            Outcome::NoCommand => false,
        }
    }

    /// Whether no fault goes with the tick.
    pub fn is_clean(&self) -> (r: bool)
        ensures
            r == (self.faults@.len() == 0),
    {
        self.faults.len() == 0
    }
}

/// The fail-safe: full duty.
pub open spec fn fail_safe() -> Outcome {
    Outcome::Command { pwm: whole(100), failsafe: true }
}

/// How serious it is to be without a comfort source.
pub open spec fn graded(required: bool) -> Severity {
    if required {
        Severity::Error
    } else {
        Severity::Warning
    }
}

pub(crate) fn grade(required: bool) -> (r: Severity)
    ensures
        r == graded(required),
{
    if required {
        Severity::Error
    } else {
        Severity::Warning
    }
}

/// A comfort source that was absent on the cold-start tick.
pub open spec fn not_arrived(key: Seq<char>, required: bool, id: Seq<char>) -> FaultView {
    FaultView {
        source: key,
        kind: FaultKind::ComfortSourceMissing,
        severity: graded(required),
        message: "comfort source "@ + key
            + " did not arrive on the cold-start tick (required: "@ + bool_text(required)
            + "; profile "@ + id + ")"@,
    }
}

pub(crate) fn not_arrived_fault(key: &SourceKey, required: bool, id: &String) -> (r: Fault)
    ensures
        r@ == not_arrived(key@, required, id@),
{
    let mut message: String = "comfort source ".to_owned();
    message.append(key.as_str());
    message.append(" did not arrive on the cold-start tick (required: ");
    message.append(bool_str(required));
    message.append("; profile ");
    message.append(id.as_str());
    message.append(")");
    Fault {
        source: key.clone(),
        kind: FaultKind::ComfortSourceMissing,
        severity: grade(required),
        message,
    }
}

/// A comfort source that has not been heard of so far.
pub open spec fn never_arrived(key: Seq<char>, required: bool, id: Seq<char>) -> FaultView {
    FaultView {
        source: key,
        kind: FaultKind::ComfortSourceMissing,
        severity: graded(required),
        message: "comfort source "@ + key + " never arrived (required: "@ + bool_text(required)
            + "; profile "@ + id + ")"@,
    }
}

pub(crate) fn never_arrived_fault(key: &SourceKey, required: bool, id: &String) -> (r: Fault)
    ensures
        r@ == never_arrived(key@, required, id@),
{
    let mut message: String = "comfort source ".to_owned();
    message.append(key.as_str());
    message.append(" never arrived (required: ");
    message.append(bool_str(required));
    message.append("; profile ");
    message.append(id.as_str());
    message.append(")");
    Fault {
        source: key.clone(),
        kind: FaultKind::ComfortSourceMissing,
        severity: grade(required),
        message,
    }
}

/// A comfort source whose last sample is `age` nanoseconds old.
pub open spec fn stale(
    key: Seq<char>,
    age: nat,
    max_staleness: nat,
    required: bool,
    id: Seq<char>,
) -> FaultView {
    FaultView {
        source: key,
        kind: FaultKind::ComfortSourceStale,
        severity: graded(required),
        message: "comfort source "@ + key + " stale: no usable sample for "@ + tenths_of(age)
            + "s (>= max_staleness_s "@ + seconds_of(max_staleness) + "; required: "@ + bool_text(
            required,
        ) + "; profile "@ + id + ")"@,
    }
}

pub(crate) fn stale_fault(
    key: &SourceKey,
    age: Duration,
    max_staleness: Duration,
    required: bool,
    id: &String,
) -> (r: Fault)
    ensures
        r@ == stale(key@, age@, max_staleness@, required, id@),
{
    let mut message: String = "comfort source ".to_owned();
    message.append(key.as_str());
    message.append(" stale: no usable sample for ");
    message.append(age.tenths().as_str());
    message.append("s (>= max_staleness_s ");
    message.append(max_staleness.in_seconds().as_str());
    message.append("; required: ");
    message.append(bool_str(required));
    message.append("; profile ");
    message.append(id.as_str());
    message.append(")");
    Fault {
        source: key.clone(),
        kind: FaultKind::ComfortSourceStale,
        severity: grade(required),
        message,
    }
}

/// An optional comfort source that is absent but fresh.
pub open spec fn optional_absent(key: Seq<char>, id: Seq<char>) -> FaultView {
    FaultView {
        source: key,
        kind: FaultKind::ComfortSourceMissing,
        severity: Severity::Warning,
        message: "optional comfort source "@ + key + " has no sample this tick (profile "@ + id
            + ")"@,
    }
}

pub(crate) fn optional_absent_fault(key: &SourceKey, id: &String) -> (r: Fault)
    ensures
        r@ == optional_absent(key@, id@),
{
    let mut message: String = "optional comfort source ".to_owned();
    message.append(key.as_str());
    message.append(" has no sample this tick (profile ");
    message.append(id.as_str());
    message.append(")");
    Fault {
        source: key.clone(),
        kind: FaultKind::ComfortSourceMissing,
        severity: Severity::Warning,
        message,
    }
}

/// A comfort source whose value is no finite number, where the fold is none.
pub open spec fn unreadable(key: Seq<char>, id: Seq<char>) -> FaultView {
    FaultView {
        source: key,
        kind: FaultKind::ComfortSourceMissing,
        severity: Severity::Error,
        message: "comfort source "@ + key + " folded into no number (profile "@ + id + ")"@,
    }
}

pub(crate) fn unreadable_fault(key: &SourceKey, id: &String) -> (r: Fault)
    ensures
        r@ == unreadable(key@, id@),
{
    let mut message: String = "comfort source ".to_owned();
    message.append(key.as_str());
    message.append(" folded into no number (profile ");
    message.append(id.as_str());
    message.append(")");
    Fault {
        source: key.clone(),
        kind: FaultKind::ComfortSourceMissing,
        severity: Severity::Error,
        message,
    }
}

/// A tripwire that nothing is known of.
pub open spec fn not_evaluated(key: Seq<char>, id: Seq<char>) -> FaultView {
    FaultView {
        source: key,
        kind: FaultKind::TripwireSourceLost,
        severity: Severity::Warning,
        message: "tripwire source "@ + key + " was not evaluated this tick (profile "@ + id
            + "); no last-known state, floor not applied"@,
    }
}

pub(crate) fn not_evaluated_fault(key: &SourceKey, id: &String) -> (r: Fault)
    ensures
        r@ == not_evaluated(key@, id@),
{
    let mut message: String = "tripwire source ".to_owned();
    message.append(key.as_str());
    message.append(" was not evaluated this tick (profile ");
    message.append(id.as_str());
    message.append("); no last-known state, floor not applied");
    Fault {
        source: key.clone(),
        kind: FaultKind::TripwireSourceLost,
        severity: Severity::Warning,
        message,
    }
}

/// What the last known state of a tripwire means.
pub open spec fn latch_text(latched: bool) -> Seq<char> {
    if latched {
        "last-known state LATCHED — protection floor still applies"@
    } else {
        "last-known state clear — no floor applied"@
    }
}

/// A tripwire that did not deliver.
pub open spec fn offline(key: Seq<char>, latched: bool, id: Seq<char>) -> FaultView {
    FaultView {
        source: key,
        kind: FaultKind::TripwireSourceLost,
        severity: Severity::Warning,
        message: "tripwire source "@ + key + " offline (profile "@ + id + "); "@ + latch_text(
            latched,
        ),
    }
}

pub(crate) fn offline_fault(key: &SourceKey, latched: bool, id: &String) -> (r: Fault)
    ensures
        r@ == offline(key@, latched, id@),
{
    let mut message: String = "tripwire source ".to_owned();
    message.append(key.as_str());
    message.append(" offline (profile ");
    message.append(id.as_str());
    message.append("); ");
    message.append(
        if latched {
            "last-known state LATCHED — protection floor still applies"
        } else {
            "last-known state clear — no floor applied"
        },
    );
    Fault {
        source: key.clone(),
        kind: FaultKind::TripwireSourceLost,
        severity: Severity::Warning,
        message,
    }
}

/// A tick that came too late to be integrated in full.
pub open spec fn gap_clamp(dt: nat, max_tick_gap: nat, id: Seq<char>) -> FaultView {
    FaultView {
        source: "<tick-gap>"@,
        kind: FaultKind::ClampedTickGap,
        severity: Severity::Warning,
        message: "tick gap "@ + tenths_of(dt) + "s exceeded max_tick_gap_s "@ + tenths_of(
            max_tick_gap,
        ) + "s; EMA/PID integration clamped to the bound (profile "@ + id + ")"@,
    }
}

/// The fault of a tick that came too late to be integrated in full.
pub(crate) fn gap_clamp_fault(dt: Duration, max_tick_gap: Duration, profile_id: &str) -> (r: Fault)
    ensures
        r@ == gap_clamp(dt@, max_tick_gap@, profile_id@),
{
    let mut message: String = "tick gap ".to_owned();
    message.append(dt.tenths().as_str());
    message.append("s exceeded max_tick_gap_s ");
    message.append(max_tick_gap.tenths().as_str());
    message.append("s; EMA/PID integration clamped to the bound (profile ");
    message.append(profile_id);
    message.append(")");
    Fault {
        source: "<tick-gap>".to_owned(),
        kind: FaultKind::ClampedTickGap,
        severity: Severity::Warning,
        message,
    }
}

/// A fault of a port that the device drives by itself.
pub open spec fn labelled(f: FaultView) -> FaultView {
    FaultView { message: f.message + " (device-managed port)"@, ..f }
}

/// Labels faults as those of a port that the device drives by itself.
pub(crate) fn label_faults(faults: Vec<Fault>) -> (r: Vec<Fault>)
    ensures
        fault_views(r@) == fault_views(faults@).map_values(|f: FaultView| labelled(f)),
{
    let mut r: Vec<Fault> = Vec::new();
    let mut i: usize = 0;
    while i < faults.len()
        invariant
            i <= faults@.len(),
            r@.len() == i,
            forall|j: int| 0 <= j < i ==> (#[trigger] r@[j])@ == labelled(faults@[j]@),
        decreases faults@.len() - i,
    {
        let mut message: String = faults[i].message.clone();
        message.append(" (device-managed port)");
        r.push(
            Fault {
                source: faults[i].source.clone(),
                kind: faults[i].kind,
                severity: faults[i].severity,
                message,
            },
        );
        i = i + 1;
    }
    assert(fault_views(r@) =~= fault_views(faults@).map_values(|f: FaultView| labelled(f)));
    r
}

/// One more fault reads as one more.
pub(crate) proof fn lemma_fault_push(faults: Seq<Fault>, f: Fault)
    ensures
        fault_views(faults.push(f)) == fault_views(faults).push(f@),
{
    assert(fault_views(faults.push(f)) =~= fault_views(faults).push(f@));
}

/// Faults one after the other read one after the other.
pub(crate) proof fn lemma_fault_append(a: Seq<Fault>, b: Seq<Fault>)
    ensures
        fault_views(a + b) == fault_views(a) + fault_views(b),
{
    assert(fault_views(a + b) =~= fault_views(a) + fault_views(b));
}

} // verus!
