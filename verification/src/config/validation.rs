//! Validation: what is wrong with a configuration, before anything runs.
//!
//! A configuration in which nothing is wrong meets every precondition of
//! [`crate::profile::ProfileHandle::new`].

use crate::config::{
    ComfortSourceRef, CurvePoint, FanControlConfig, FanProfileConfig, Mode, SensorSourceConfig,
};
use crate::curve::drawable;
use crate::float::{whole, Float64};
use crate::slew::{in_duty_range, lemma_range_is_finite};
use crate::source_map::SourceMap;
use crate::time::{representable, Duration};
use vstd::prelude::*;
use vstd::string::StringExecFns;

verus! {

/// One thing that is wrong.
#[derive(Debug, Clone, PartialEq, Eq)]
pub struct ValidationError {
    /// Where in the configuration.
    pub path: String,
    /// What is wrong; for a profile, its name comes first.
    pub message: String,
}

/// All that is wrong.
#[derive(Debug, Clone, PartialEq, Eq)]
pub struct ValidationErrors {
    pub errors: Vec<ValidationError>,
}

/// One thing that is wrong, with its texts as sequences of characters.
pub struct Problem {
    pub path: Seq<char>,
    pub message: Seq<char>,
}

impl View for ValidationError {
    type V = Problem;

    open spec fn view(&self) -> Problem {
        Problem { path: self.path@, message: self.message@ }
    }
}

/// Several things that are wrong, in order.
pub open spec fn problems(errors: Seq<ValidationError>) -> Seq<Problem> {
    errors.map_values(|e: ValidationError| e@)
}

impl View for ValidationErrors {
    type V = Seq<Problem>;

    open spec fn view(&self) -> Seq<Problem> {
        problems(self.errors@)
    }
}

impl ValidationErrors {
    /// Whether nothing is wrong.
    pub fn is_empty(&self) -> (r: bool)
        ensures
            r == (self@.len() == 0),
    {
        self.errors.len() == 0
    }
}

/// The problem, where there is one.
pub open spec fn when(bad: bool, path: Seq<char>, message: Seq<char>) -> Seq<Problem> {
    if bad {
        seq![Problem { path, message }]
    } else {
        Seq::empty()
    }
}

/// Notes a problem, where there is one.
fn note(errors: &mut Vec<ValidationError>, bad: bool, path: String, message: String)
    ensures
        problems(final(errors)@) == problems(old(errors)@) + when(bad, path@, message@),
{
    if bad {
        let ghost was = errors@;
        let e = ValidationError { path, message };
        errors.push(e);
        assert(problems(errors@) =~= problems(was).push(e@));
    }
    assert(problems(errors@) =~= problems(old(errors)@) + when(bad, path@, message@));
}

/// What is wrong, said of a profile.
pub open spec fn of_profile(id: Seq<char>, what: Seq<char>) -> Seq<char> {
    "profile "@ + id + ": "@ + what
}

fn said_of_profile(id: &String, what: &str) -> (r: String)
    ensures
        r@ == of_profile(id@, what@),
{
    let mut r: String = "profile ".to_owned();
    r.append(id.as_str());
    r.append(": ");
    r.append(what);
    r
}

/// The number is above zero.
pub open spec fn positive(x: Float64) -> bool {
    whole(0).below(x)
}

fn is_positive(x: Float64) -> (r: bool)
    ensures
        r == positive(x),
{
    Float64::from_u64(0).lt(x)
}

fn is_percentage(x: Float64) -> (r: bool)
    ensures
        r == in_duty_range(x),
{
    Float64::from_u64(0).le(x) && x.le(Float64::from_u64(100))
}

/// Some temperature of the curve is not between 0 and 100 degrees.
pub open spec fn temps_out_of_range(points: Seq<CurvePoint>) -> bool {
    exists|i: int| 0 <= i < points.len() && !in_duty_range((#[trigger] points[i]).temp_c)
}

/// Some duty of the curve is not between 0 and 100 percent.
pub open spec fn duties_out_of_range(points: Seq<CurvePoint>) -> bool {
    exists|i: int| 0 <= i < points.len() && !in_duty_range((#[trigger] points[i]).pwm)
}

/// Some temperature occurs twice.
pub open spec fn temps_repeat(points: Seq<CurvePoint>) -> bool {
    exists|i: int, j: int|
        0 <= i < j < points.len() && (#[trigger] points[i]).temp_c.same(
            (#[trigger] points[j]).temp_c,
        )
}

/// Whether some temperature, and whether some duty, is out of range.
fn scan_points(points: &Vec<CurvePoint>) -> (r: (bool, bool))
    ensures
        r.0 == temps_out_of_range(points@),
        r.1 == duties_out_of_range(points@),
{
    let mut temps: bool = false;
    let mut duties: bool = false;
    let mut i: usize = 0;
    while i < points.len()
        invariant
            i <= points@.len(),
            temps <==> exists|j: int|
                0 <= j < i && !in_duty_range((#[trigger] points@[j]).temp_c),
            duties <==> exists|j: int| 0 <= j < i && !in_duty_range((#[trigger] points@[j]).pwm),
        decreases points@.len() - i,
    {
        temps = temps || !is_percentage(points[i].temp_c);
        duties = duties || !is_percentage(points[i].pwm);
        i = i + 1;
    }
    (temps, duties)
}

/// Whether some temperature occurs twice.
fn has_repeats(points: &Vec<CurvePoint>) -> (r: bool)
    ensures
        r == temps_repeat(points@),
{
    let mut i: usize = 0;
    while i < points.len()
        invariant
            i <= points@.len(),
            forall|a: int, b: int|
                0 <= a < i && a < b < points@.len() ==> !(#[trigger] points@[a]).temp_c.same(
                    (#[trigger] points@[b]).temp_c,
                ),
        decreases points@.len() - i,
    {
        let mut j: usize = i + 1;
        while j < points.len()
            invariant
                i < j <= points@.len(),
                forall|b: int|
                    i < b < j ==> !points@[i as int].temp_c.same((#[trigger] points@[b]).temp_c),
            decreases points@.len() - j,
        {
            if points[i].temp_c == points[j].temp_c {
                assert(points@[i as int].temp_c.same(points@[j as int].temp_c));
                return true;
            }
            j = j + 1;
        }
        i = i + 1;
    }
    false
}

/// What is wrong with the points of a curve profile.
pub open spec fn curve_problems(id: Seq<char>, points: Option<Vec<CurvePoint>>) -> Seq<Problem> {
    match points {
        None => when(true, "curve_points"@, of_profile(id, "a curve needs at least 2 points"@)),
        Some(points) => when(
            points@.len() < 2,
            "curve_points"@,
            of_profile(id, "a curve needs at least 2 points"@),
        ) + when(
            temps_out_of_range(points@),
            "curve_points"@,
            of_profile(id, "temperatures must lie between 0 and 100"@),
        ) + when(
            duties_out_of_range(points@),
            "curve_points"@,
            of_profile(id, "duties must lie between 0 and 100"@),
        ) + when(
            temps_repeat(points@),
            "curve_points"@,
            of_profile(id, "temperatures must differ"@),
        ),
    }
}

/// What is wrong with the fields that a profile's mode asks for.
pub open spec fn mode_problems(profile: FanProfileConfig) -> Seq<Problem> {
    let id = profile.id@;
    match profile.mode {
        Mode::StaticPercent => when(
            !(profile.static_percent matches Some(percent) && in_duty_range(percent)),
            "static_percent"@,
            of_profile(id, "a static profile needs a duty between 0 and 100"@),
        ) + when(
            profile.comfort@.len() > 0,
            "comfort"@,
            of_profile(id, "a static profile takes no comfort source"@),
        ),
        Mode::Curve => curve_problems(id, profile.curve_points) + when(
            profile.comfort@.len() == 0,
            "comfort"@,
            of_profile(id, "a temperature-driven profile needs a comfort source"@),
        ),
        Mode::TargetTemp => when(
            !(profile.setpoint_c matches Some(setpoint) && setpoint.finite()),
            "setpoint_c"@,
            of_profile(id, "a target profile needs a temperature to hold"@),
        ) + when(
            profile.gains is None,
            "gains"@,
            of_profile(id, "a target profile needs gains"@),
        ) + when(
            profile.comfort@.len() == 0,
            "comfort"@,
            of_profile(id, "a temperature-driven profile needs a comfort source"@),
        ),
        Mode::DeviceMemory => Seq::empty(),
    }
}

/// What is wrong with the time constants that a profile sets itself, among its
/// first `n` comfort sources.
pub open spec fn tau_problems(id: Seq<char>, refs: Seq<ComfortSourceRef>, n: nat) -> Seq<Problem>
    decreases n,
{
    if n == 0 {
        Seq::empty()
    } else {
        let r = refs[n - 1];
        tau_problems(id, refs, (n - 1) as nat) + when(
            r.ema_tau_s matches Some(tau) && !positive(tau),
            "comfort."@ + r.key@ + ".ema_tau_s"@,
            of_profile(id, "a time constant must be above 0"@),
        )
    }
}

/// What is wrong with a profile.
pub open spec fn profile_problems(profile: FanProfileConfig) -> Seq<Problem> {
    let id = profile.id@;
    mode_problems(profile) + when(
        !in_duty_range(profile.min_duty),
        "min_duty"@,
        of_profile(id, "the least duty must lie between 0 and 100"@),
    ) + when(
        !positive(profile.slew.up),
        "slew.up"@,
        of_profile(id, "a rate must be above 0"@),
    ) + when(
        !positive(profile.slew.down),
        "slew.down"@,
        of_profile(id, "a rate must be above 0"@),
    ) + tau_problems(id, profile.comfort@, profile.comfort@.len())
}

/// Notes what is wrong with the points of a curve profile.
fn validate_curve(
    id: &String,
    points: &Option<Vec<CurvePoint>>,
    errors: &mut Vec<ValidationError>,
)
    ensures
        problems(final(errors)@) == problems(old(errors)@) + curve_problems(id@, *points),
{
    let ghost was = problems(errors@);
    match points {
        None => {
            note(
                errors,
                true,
                "curve_points".to_owned(),
                said_of_profile(id, "a curve needs at least 2 points"),
            );
        },
        Some(points) => {
            let (temps, duties): (bool, bool) = scan_points(points);
            note(
                errors,
                points.len() < 2,
                "curve_points".to_owned(),
                said_of_profile(id, "a curve needs at least 2 points"),
            );
            note(
                errors,
                temps,
                "curve_points".to_owned(),
                said_of_profile(id, "temperatures must lie between 0 and 100"),
            );
            note(
                errors,
                duties,
                "curve_points".to_owned(),
                said_of_profile(id, "duties must lie between 0 and 100"),
            );
            note(
                errors,
                has_repeats(points),
                "curve_points".to_owned(),
                said_of_profile(id, "temperatures must differ"),
            );
        },
    }
    assert(problems(errors@) =~= was + curve_problems(id@, *points));
}

/// Notes what is wrong with the fields that a profile's mode asks for.
fn validate_mode(profile: &FanProfileConfig, errors: &mut Vec<ValidationError>)
    ensures
        problems(final(errors)@) == problems(old(errors)@) + mode_problems(*profile),
{
    let ghost was = problems(errors@);
    let id: &String = &profile.id;
    match profile.mode {
        Mode::StaticPercent => {
            let bad: bool = match profile.static_percent {
                Some(percent) => !is_percentage(percent),
                None => true,
            };
            note(
                errors,
                bad,
                "static_percent".to_owned(),
                said_of_profile(id, "a static profile needs a duty between 0 and 100"),
            );
            note(
                errors,
                profile.comfort.len() > 0,
                "comfort".to_owned(),
                said_of_profile(id, "a static profile takes no comfort source"),
            );
        },
        Mode::Curve => {
            validate_curve(id, &profile.curve_points, errors);
            note(
                errors,
                profile.comfort.len() == 0,
                "comfort".to_owned(),
                said_of_profile(id, "a temperature-driven profile needs a comfort source"),
            );
        },
        Mode::TargetTemp => {
            let bad: bool = match profile.setpoint_c {
                Some(setpoint) => !setpoint.is_finite(),
                None => true,
            };
            note(
                errors,
                bad,
                "setpoint_c".to_owned(),
                said_of_profile(id, "a target profile needs a temperature to hold"),
            );
            note(
                errors,
                profile.gains.is_none(),
                "gains".to_owned(),
                said_of_profile(id, "a target profile needs gains"),
            );
            note(
                errors,
                profile.comfort.len() == 0,
                "comfort".to_owned(),
                said_of_profile(id, "a temperature-driven profile needs a comfort source"),
            );
        },
        Mode::DeviceMemory => {},
    }
    assert(problems(errors@) =~= was + mode_problems(*profile));
}

/// Everything that is wrong with a profile.
pub fn validate(profile: &FanProfileConfig) -> (r: ValidationErrors)
    ensures
        r@ == profile_problems(*profile),
{
    let mut errors: Vec<ValidationError> = Vec::new();
    let id: &String = &profile.id;
    assert(problems(errors@) =~= Seq::<Problem>::empty());
    validate_mode(profile, &mut errors);
    assert(problems(errors@) =~= mode_problems(*profile));
    note(
        &mut errors,
        !is_percentage(profile.min_duty),
        "min_duty".to_owned(),
        said_of_profile(id, "the least duty must lie between 0 and 100"),
    );
    note(
        &mut errors,
        !is_positive(profile.slew.up),
        "slew.up".to_owned(),
        said_of_profile(id, "a rate must be above 0"),
    );
    note(
        &mut errors,
        !is_positive(profile.slew.down),
        "slew.down".to_owned(),
        said_of_profile(id, "a rate must be above 0"),
    );
    let ghost so_far = problems(errors@);
    let mut i: usize = 0;
    while i < profile.comfort.len()
        invariant
            i <= profile.comfort@.len(),
            id == profile.id,
            problems(errors@) == so_far + tau_problems(id@, profile.comfort@, i as nat),
        decreases profile.comfort@.len() - i,
    {
        let bad: bool = match profile.comfort[i].ema_tau_s {
            Some(tau) => !is_positive(tau),
            None => false,
        };
        let mut path: String = "comfort.".to_owned();
        path.append(profile.comfort[i].key.as_str());
        path.append(".ema_tau_s");
        note(&mut errors, bad, path, said_of_profile(id, "a time constant must be above 0"));
        i = i + 1;
        assert(problems(errors@) =~= so_far + tau_problems(id@, profile.comfort@, i as nat));
    }
    ValidationErrors { errors }
}

/// Where the settings of a sensor source stand.
pub open spec fn source_path(k: Seq<char>, field: Seq<char>) -> Seq<char> {
    "sensor_sources."@ + k + field
}

fn path_of_source(k: &String, field: &str) -> (r: String)
    ensures
        r@ == source_path(k@, field@),
{
    let mut r: String = "sensor_sources.".to_owned();
    r.append(k.as_str());
    r.append(field);
    r
}

/// What is wrong with a sensor source.
pub open spec fn source_problems(k: Seq<char>, s: SensorSourceConfig) -> Seq<Problem> {
    when(
        s.comfort matches Some(c) && !positive(c.ema_tau_s),
        source_path(k, ".comfort.ema_tau_s"@),
        "a time constant must be above 0"@,
    ) + when(
        s.tripwire matches Some(t) && !positive(t.ema_tau_s),
        source_path(k, ".tripwire.ema_tau_s"@),
        "a time constant must be above 0"@,
    ) + when(
        s.tripwire matches Some(t) && !positive(t.hysteresis_c),
        source_path(k, ".tripwire.hysteresis_c"@),
        "a hysteresis must be above 0"@,
    ) + when(
        s.tripwire matches Some(t) && !in_duty_range(t.protection_target),
        source_path(k, ".tripwire.protection_target"@),
        "a duty must lie between 0 and 100"@,
    )
}

/// What is wrong with the first `n` sensor sources.
pub open spec fn sources_problems(
    sources: Seq<(Seq<char>, SensorSourceConfig)>,
    n: nat,
) -> Seq<Problem>
    decreases n,
{
    if n == 0 {
        Seq::empty()
    } else {
        sources_problems(sources, (n - 1) as nat) + source_problems(
            sources[n - 1].0,
            sources[n - 1].1,
        )
    }
}

/// What is wrong with what all profiles share.
pub open spec fn control_problems(control: FanControlConfig) -> Seq<Problem> {
    when(
        !(positive(control.max_staleness_s) && representable(control.max_staleness_s)),
        "max_staleness_s"@,
        "a time must be above 0 and not too long"@,
    ) + when(
        !(positive(control.max_tick_gap_s) && representable(control.max_tick_gap_s)),
        "max_tick_gap_s"@,
        "a time must be above 0 and not too long"@,
    ) + sources_problems(control.sensor_sources@, control.sensor_sources@.len())
}

/// Notes what is wrong with a sensor source.
fn validate_source(k: &String, s: &SensorSourceConfig, errors: &mut Vec<ValidationError>)
    ensures
        problems(final(errors)@) == problems(old(errors)@) + source_problems(k@, *s),
{
    let ghost was = problems(errors@);
    let (tau, hysteresis, target): (bool, bool, bool) = match s.tripwire {
        Some(t) => (
            !is_positive(t.ema_tau_s),
            !is_positive(t.hysteresis_c),
            !is_percentage(t.protection_target),
        ),
        None => (false, false, false),
    };
    let comfort_tau: bool = match s.comfort {
        Some(c) => !is_positive(c.ema_tau_s),
        None => false,
    };
    note(
        errors,
        comfort_tau,
        path_of_source(k, ".comfort.ema_tau_s"),
        "a time constant must be above 0".to_owned(),
    );
    note(
        errors,
        tau,
        path_of_source(k, ".tripwire.ema_tau_s"),
        "a time constant must be above 0".to_owned(),
    );
    note(
        errors,
        hysteresis,
        path_of_source(k, ".tripwire.hysteresis_c"),
        "a hysteresis must be above 0".to_owned(),
    );
    note(
        errors,
        target,
        path_of_source(k, ".tripwire.protection_target"),
        "a duty must lie between 0 and 100".to_owned(),
    );
    assert(problems(errors@) =~= was + source_problems(k@, *s));
}

/// Everything that is wrong with what all profiles share.
pub fn validate_control(control: &FanControlConfig) -> (r: ValidationErrors)
    ensures
        r@ == control_problems(*control),
{
    let mut errors: Vec<ValidationError> = Vec::new();
    assert(problems(errors@) =~= Seq::<Problem>::empty());
    note(
        &mut errors,
        !(is_positive(control.max_staleness_s) && is_span_of_time(control.max_staleness_s)),
        "max_staleness_s".to_owned(),
        "a time must be above 0 and not too long".to_owned(),
    );
    note(
        &mut errors,
        !(is_positive(control.max_tick_gap_s) && is_span_of_time(control.max_tick_gap_s)),
        "max_tick_gap_s".to_owned(),
        "a time must be above 0 and not too long".to_owned(),
    );
    let ghost so_far = problems(errors@);
    let sources: &SourceMap<SensorSourceConfig> = &control.sensor_sources;
    let n: usize = sources.len();
    let mut i: usize = 0;
    while i < n
        invariant
            i <= n,
            n == sources@.len(),
            problems(errors@) == so_far + sources_problems(sources@, i as nat),
        decreases n - i,
    {
        validate_source(sources.key_at(i), sources.value_at(i), &mut errors);
        i = i + 1;
        assert(problems(errors@) =~= so_far + sources_problems(sources@, i as nat));
    }
    assert(problems(errors@) =~= control_problems(*control));
    ValidationErrors { errors }
}

fn is_span_of_time(x: Float64) -> (r: bool)
    ensures
        r == representable(x),
{
    Duration::try_from_seconds(x).is_some()
}

/// A configuration in which nothing is wrong can be run: its curve can be
/// drawn, and its times can be held.
pub proof fn law_valid_configuration_opens(profile: FanProfileConfig, control: FanControlConfig)
    requires
        profile_problems(profile).len() == 0,
        control_problems(control).len() == 0,
    ensures
        profile.mode == Mode::Curve ==> profile.curve_points is Some && drawable(
            profile.curve_points->0@,
        ),
        representable(control.max_staleness_s),
        representable(control.max_tick_gap_s),
        in_duty_range(profile.min_duty),
        profile.mode == Mode::StaticPercent ==> (profile.static_percent matches Some(percent)
            && in_duty_range(percent)),
{
    if profile.mode == Mode::Curve {
        assert(curve_problems(profile.id@, profile.curve_points).len() == 0);
        let points = profile.curve_points->0@;
        assert forall|i: int| 0 <= i < points.len() implies (
        #[trigger] points[i]).temp_c.finite() by {
            assert(in_duty_range(points[i].temp_c));
            lemma_range_is_finite(points[i].temp_c);
        }
        assert forall|i: int, j: int| 0 <= i < j < points.len() implies (
        #[trigger] points[i]).temp_c.rank() != (#[trigger] points[j]).temp_c.rank() by {
            assert(in_duty_range(points[i].temp_c));
            assert(in_duty_range(points[j].temp_c));
            assert(!points[i].temp_c.same(points[j].temp_c));
        }
    }
}

/// A temperature-driven profile without a comfort source is rejected, with an
/// error that names the profile.
pub proof fn law_missing_comfort_source_is_rejected(profile: FanProfileConfig)
    requires
        profile.mode == Mode::Curve || profile.mode == Mode::TargetTemp,
        profile.comfort@.len() == 0,
    ensures
        profile_problems(profile).contains(
            Problem {
                path: "comfort"@,
                message: of_profile(
                    profile.id@,
                    "a temperature-driven profile needs a comfort source"@,
                ),
            },
        ),
{
    let p = Problem {
        path: "comfort"@,
        message: of_profile(profile.id@, "a temperature-driven profile needs a comfort source"@),
    };
    let m = mode_problems(profile);
    assert(m[m.len() - 1] == p);
    assert(profile_problems(profile)[m.len() - 1] == p);
}

/// Nothing is wrong with a profile exactly if it has what its mode asks for,
/// its duties lie between 0 and 100, and its rates and time constants are above
/// zero.
pub proof fn law_a_profile_is_valid_exactly_if(profile: FanProfileConfig)
    ensures
        profile_problems(profile).len() == 0 <==> {
            &&& whole(0).at_most(profile.min_duty) && profile.min_duty.at_most(whole(100))
            &&& whole(0).below(profile.slew.up)
            &&& whole(0).below(profile.slew.down)
            &&& forall|i: int|
                0 <= i < profile.comfort@.len() ==> ((
                #[trigger] profile.comfort@[i]).ema_tau_s matches Some(tau) ==> whole(0).below(tau))
            &&& profile.mode == Mode::StaticPercent ==> {
                &&& profile.static_percent matches Some(percent) && whole(0).at_most(percent)
                    && percent.at_most(whole(100))
                &&& profile.comfort@.len() == 0
            }
            &&& profile.mode == Mode::Curve ==> {
                &&& profile.comfort@.len() > 0
                &&& profile.curve_points is Some
                &&& profile.curve_points->0@.len() >= 2
                &&& forall|i: int|
                    0 <= i < profile.curve_points->0@.len() ==> {
                        let point = #[trigger] profile.curve_points->0@[i];
                        &&& whole(0).at_most(point.temp_c) && point.temp_c.at_most(whole(100))
                        &&& whole(0).at_most(point.pwm) && point.pwm.at_most(whole(100))
                    }
                &&& forall|i: int, j: int|
                    0 <= i < j < profile.curve_points->0@.len() ==> !(
                    #[trigger] profile.curve_points->0@[i]).temp_c.same(
                        (#[trigger] profile.curve_points->0@[j]).temp_c,
                    )
            }
            &&& profile.mode == Mode::TargetTemp ==> {
                &&& profile.comfort@.len() > 0
                &&& profile.setpoint_c matches Some(setpoint) && setpoint.finite()
                &&& profile.gains is Some
            }
        },
{
    lemma_taus(profile.id@, profile.comfort@, profile.comfort@.len());
    if profile.mode == Mode::Curve && profile.curve_points is Some {
        lemma_points(profile.id@, profile.curve_points->0);
    }
}

/// Nothing is wrong with the points of a curve exactly if there are enough of
/// them, in range and apart.
proof fn lemma_points(id: Seq<char>, given: Vec<CurvePoint>)
    ensures
        curve_problems(id, Some(given)).len() == 0 <==> {
            &&& given@.len() >= 2
            &&& forall|i: int|
                0 <= i < given@.len() ==> {
                    let point = #[trigger] given@[i];
                    &&& whole(0).at_most(point.temp_c) && point.temp_c.at_most(whole(100))
                    &&& whole(0).at_most(point.pwm) && point.pwm.at_most(whole(100))
                }
            &&& forall|i: int, j: int|
                0 <= i < j < given@.len() ==> !(#[trigger] given@[i]).temp_c.same(
                    (#[trigger] given@[j]).temp_c,
                )
        },
{
    let points = given@;
    if !temps_out_of_range(points) && !duties_out_of_range(points) {
        assert forall|i: int| 0 <= i < points.len() implies {
            let point = #[trigger] points[i];
            &&& whole(0).at_most(point.temp_c) && point.temp_c.at_most(whole(100))
            &&& whole(0).at_most(point.pwm) && point.pwm.at_most(whole(100))
        } by {
            assert(in_duty_range(points[i].temp_c));
            assert(in_duty_range(points[i].pwm));
        }
    }
}

/// Nothing is wrong with the time constants exactly if all are above zero.
proof fn lemma_taus(id: Seq<char>, refs: Seq<ComfortSourceRef>, n: nat)
    requires
        n <= refs.len(),
    ensures
        tau_problems(id, refs, n).len() == 0 <==> forall|i: int|
            0 <= i < n ==> ((#[trigger] refs[i]).ema_tau_s matches Some(tau) ==> whole(0).below(
                tau,
            )),
    decreases n,
{
    if n > 0 {
        lemma_taus(id, refs, (n - 1) as nat);
        if tau_problems(id, refs, n).len() == 0 {
            assert forall|i: int| 0 <= i < n implies ((#[trigger] refs[i]).ema_tau_s matches Some(
                tau,
            ) ==> whole(0).below(tau)) by {
                if i == n - 1 {
                    assert(!(refs[n - 1].ema_tau_s matches Some(tau) && !positive(tau)));
                }
            }
        } else if tau_problems(id, refs, (n - 1) as nat).len() == 0 {
            assert(refs[n - 1].ema_tau_s matches Some(tau) && !positive(tau));
        }
    }
}

/// Nothing is wrong with what all profiles share exactly if its times are above
/// zero and can be held, and the time constants and hystereses of its sources
/// are above zero, and their protection targets lie between 0 and 100.
pub proof fn law_control_is_valid_exactly_if(control: FanControlConfig)
    ensures
        control_problems(control).len() == 0 <==> {
            &&& whole(0).below(control.max_staleness_s) && representable(control.max_staleness_s)
            &&& whole(0).below(control.max_tick_gap_s) && representable(control.max_tick_gap_s)
            &&& forall|i: int|
                0 <= i < control.sensor_sources@.len() ==> {
                    let source = (#[trigger] control.sensor_sources@[i]).1;
                    &&& source.comfort matches Some(c) ==> whole(0).below(c.ema_tau_s)
                    &&& source.tripwire matches Some(t) ==> whole(0).below(t.ema_tau_s)
                        && whole(0).below(t.hysteresis_c) && whole(0).at_most(t.protection_target)
                        && t.protection_target.at_most(whole(100))
                }
        },
{
    lemma_sources(control.sensor_sources@, control.sensor_sources@.len());
}

/// Nothing is wrong with the first sources exactly if nothing is with each.
proof fn lemma_sources(sources: Seq<(Seq<char>, SensorSourceConfig)>, n: nat)
    requires
        n <= sources.len(),
    ensures
        sources_problems(sources, n).len() == 0 <==> forall|i: int|
            0 <= i < n ==> {
                let source = (#[trigger] sources[i]).1;
                &&& source.comfort matches Some(c) ==> whole(0).below(c.ema_tau_s)
                &&& source.tripwire matches Some(t) ==> whole(0).below(t.ema_tau_s)
                    && whole(0).below(t.hysteresis_c) && whole(0).at_most(t.protection_target)
                    && t.protection_target.at_most(whole(100))
            },
    decreases n,
{
    if n > 0 {
        let k = n - 1;
        lemma_sources(sources, k as nat);
        let here = source_problems(sources[k].0, sources[k].1);
        assert(here.len() == 0 <==> {
            let source = sources[k].1;
            &&& source.comfort matches Some(c) ==> whole(0).below(c.ema_tau_s)
            &&& source.tripwire matches Some(t) ==> whole(0).below(t.ema_tau_s) && whole(0).below(
                t.hysteresis_c,
            ) && whole(0).at_most(t.protection_target) && t.protection_target.at_most(whole(100))
        });
        if sources_problems(sources, n).len() == 0 {
            assert forall|i: int| 0 <= i < n implies {
                let source = (#[trigger] sources[i]).1;
                &&& source.comfort matches Some(c) ==> whole(0).below(c.ema_tau_s)
                &&& source.tripwire matches Some(t) ==> whole(0).below(t.ema_tau_s)
                    && whole(0).below(t.hysteresis_c) && whole(0).at_most(t.protection_target)
                    && t.protection_target.at_most(whole(100))
            } by {
                if i == k {
                    assert(here.len() == 0);
                }
            }
        }
    }
}

/// Whatever is wrong with a profile is reported, at the field that it is wrong
/// with, under the profile's name: one thing that is wrong hides no other.
pub proof fn law_whatever_is_wrong_with_a_profile_is_reported(profile: FanProfileConfig, i: int)
    ensures
        ({
            let found = profile_problems(profile);
            let said = "profile "@ + profile.id@ + ": "@;
            let rate = "a rate must be above 0"@;
            &&& !(whole(0).at_most(profile.min_duty) && profile.min_duty.at_most(whole(100)))
                ==> found.contains(
                Problem {
                    path: "min_duty"@,
                    message: said + "the least duty must lie between 0 and 100"@,
                },
            )
            &&& !whole(0).below(profile.slew.up) ==> found.contains(
                Problem { path: "slew.up"@, message: said + rate },
            )
            &&& !whole(0).below(profile.slew.down) ==> found.contains(
                Problem { path: "slew.down"@, message: said + rate },
            )
            &&& 0 <= i < profile.comfort@.len() && (
            profile.comfort@[i].ema_tau_s matches Some(tau) && !whole(0).below(tau))
                ==> found.contains(
                Problem {
                    path: "comfort."@ + profile.comfort@[i].key@ + ".ema_tau_s"@,
                    message: said + "a time constant must be above 0"@,
                },
            )
        }),
{
    let id = profile.id@;
    let m = mode_problems(profile);
    let least = when(
        !in_duty_range(profile.min_duty),
        "min_duty"@,
        of_profile(id, "the least duty must lie between 0 and 100"@),
    );
    let up = when(
        !positive(profile.slew.up),
        "slew.up"@,
        of_profile(id, "a rate must be above 0"@),
    );
    let down = when(
        !positive(profile.slew.down),
        "slew.down"@,
        of_profile(id, "a rate must be above 0"@),
    );
    let taus = tau_problems(id, profile.comfort@, profile.comfort@.len());
    let found = profile_problems(profile);
    let at = m.len() as int;
    if !in_duty_range(profile.min_duty) {
        assert(found[at] == least[0]);
    }
    if !positive(profile.slew.up) {
        assert(found[at + least.len()] == up[0]);
    }
    if !positive(profile.slew.down) {
        assert(found[at + least.len() + up.len()] == down[0]);
    }
    if 0 <= i < profile.comfort@.len() && (profile.comfort@[i].ema_tau_s matches Some(tau)
        && !whole(0).below(tau)) {
        lemma_tau_reported(id, profile.comfort@, profile.comfort@.len(), i);
        let p = Problem {
            path: "comfort."@ + profile.comfort@[i].key@ + ".ema_tau_s"@,
            message: of_profile(id, "a time constant must be above 0"@),
        };
        let j = choose|j: int| 0 <= j < taus.len() && taus[j] == p;
        assert(found[at + least.len() + up.len() + down.len() + j] == p);
    }
}

/// A time constant that is not above zero is reported.
proof fn lemma_tau_reported(id: Seq<char>, refs: Seq<ComfortSourceRef>, n: nat, i: int)
    requires
        0 <= i < n <= refs.len(),
        refs[i].ema_tau_s matches Some(tau) && !positive(tau),
    ensures
        tau_problems(id, refs, n).contains(
            Problem {
                path: "comfort."@ + refs[i].key@ + ".ema_tau_s"@,
                message: of_profile(id, "a time constant must be above 0"@),
            },
        ),
    decreases n,
{
    let found = tau_problems(id, refs, n);
    let rest = tau_problems(id, refs, (n - 1) as nat);
    let p = Problem {
        path: "comfort."@ + refs[i].key@ + ".ema_tau_s"@,
        message: of_profile(id, "a time constant must be above 0"@),
    };
    if i == n - 1 {
        assert(found[rest.len() as int] == p);
    } else {
        lemma_tau_reported(id, refs, (n - 1) as nat, i);
        let j = choose|j: int| 0 <= j < rest.len() && rest[j] == p;
        assert(found[j] == p);
    }
}

/// Whatever a profile lacks that its mode asks for, or has that its mode does
/// not take, is reported at that field, under the profile's name.
pub proof fn law_whatever_a_mode_lacks_is_reported(profile: FanProfileConfig)
    ensures
        ({
            let found = profile_problems(profile);
            let said = "profile "@ + profile.id@ + ": "@;
            &&& profile.mode == Mode::StaticPercent && !(
            profile.static_percent matches Some(percent) && whole(0).at_most(percent)
                && percent.at_most(whole(100))) ==> found.contains(
                Problem {
                    path: "static_percent"@,
                    message: said + "a static profile needs a duty between 0 and 100"@,
                },
            )
            &&& profile.mode == Mode::StaticPercent && profile.comfort@.len() > 0
                ==> found.contains(
                Problem {
                    path: "comfort"@,
                    message: said + "a static profile takes no comfort source"@,
                },
            )
            &&& profile.mode == Mode::TargetTemp && !(profile.setpoint_c matches Some(setpoint)
                && setpoint.finite()) ==> found.contains(
                Problem {
                    path: "setpoint_c"@,
                    message: said + "a target profile needs a temperature to hold"@,
                },
            )
            &&& profile.mode == Mode::TargetTemp && profile.gains is None ==> found.contains(
                Problem { path: "gains"@, message: said + "a target profile needs gains"@ },
            )
            &&& (profile.mode == Mode::Curve || profile.mode == Mode::TargetTemp)
                && profile.comfort@.len() == 0 ==> found.contains(
                Problem {
                    path: "comfort"@,
                    message: said + "a temperature-driven profile needs a comfort source"@,
                },
            )
        }),
{
    let m = mode_problems(profile);
    let found = profile_problems(profile);
    assert forall|j: int| 0 <= j < m.len() implies #[trigger] found[j] == m[j] by {}
    if m.len() > 0 {
        assert(found[0] == m[0]);
        assert(found[m.len() - 1] == m[m.len() - 1]);
        if m.len() > 1 {
            assert(found[1] == m[1]);
        }
    }
}

/// Whatever is wrong with the points of a curve is reported, under the
/// profile's name: too few of them, temperatures or duties out of range, and
/// temperatures that repeat.
pub proof fn law_whatever_is_wrong_with_a_curve_is_reported(
    profile: FanProfileConfig,
    i: int,
    j: int,
)
    requires
        profile.mode == Mode::Curve,
    ensures
        ({
            let found = profile_problems(profile);
            let said = "profile "@ + profile.id@ + ": "@;
            match profile.curve_points {
                None => found.contains(
                    Problem {
                        path: "curve_points"@,
                        message: said + "a curve needs at least 2 points"@,
                    },
                ),
                Some(given) => {
                    let points = given@;
                    &&& points.len() < 2 ==> found.contains(
                        Problem {
                            path: "curve_points"@,
                            message: said + "a curve needs at least 2 points"@,
                        },
                    )
                    &&& 0 <= i < points.len() && !(whole(0).at_most(points[i].temp_c)
                        && points[i].temp_c.at_most(whole(100))) ==> found.contains(
                        Problem {
                            path: "curve_points"@,
                            message: said + "temperatures must lie between 0 and 100"@,
                        },
                    )
                    &&& 0 <= i < points.len() && !(whole(0).at_most(points[i].pwm)
                        && points[i].pwm.at_most(whole(100))) ==> found.contains(
                        Problem {
                            path: "curve_points"@,
                            message: said + "duties must lie between 0 and 100"@,
                        },
                    )
                    &&& 0 <= i < j < points.len() && points[i].temp_c.same(points[j].temp_c)
                        ==> found.contains(
                        Problem {
                            path: "curve_points"@,
                            message: said + "temperatures must differ"@,
                        },
                    )
                },
            }
        }),
{
    let id = profile.id@;
    let c = curve_problems(id, profile.curve_points);
    let m = mode_problems(profile);
    let found = profile_problems(profile);
    assert forall|a: int| 0 <= a < c.len() implies #[trigger] found[a] == c[a] by {
        assert(m[a] == c[a]);
    }
    if let Some(given) = profile.curve_points {
        let points = given@;
        let few = when(
            points.len() < 2,
            "curve_points"@,
            of_profile(id, "a curve needs at least 2 points"@),
        ).len() as int;
        let temps = when(
            temps_out_of_range(points),
            "curve_points"@,
            of_profile(id, "temperatures must lie between 0 and 100"@),
        ).len() as int;
        let duties = when(
            duties_out_of_range(points),
            "curve_points"@,
            of_profile(id, "duties must lie between 0 and 100"@),
        ).len() as int;
        if points.len() < 2 {
            assert(found[0] == c[0]);
        }
        if temps_out_of_range(points) {
            assert(found[few] == c[few]);
        }
        if duties_out_of_range(points) {
            assert(found[few + temps] == c[few + temps]);
        }
        if temps_repeat(points) {
            assert(found[few + temps + duties] == c[few + temps + duties]);
        }
    } else {
        assert(found[0] == c[0]);
    }
}

/// Whatever is wrong with what all profiles share is reported, at the field that
/// it is wrong with.
pub proof fn law_whatever_is_wrong_with_control_is_reported(control: FanControlConfig, i: int)
    ensures
        ({
            let found = control_problems(control);
            let long = "a time must be above 0 and not too long"@;
            &&& !(whole(0).below(control.max_staleness_s) && representable(
                control.max_staleness_s,
            )) ==> found.contains(Problem { path: "max_staleness_s"@, message: long })
            &&& !(whole(0).below(control.max_tick_gap_s) && representable(control.max_tick_gap_s))
                ==> found.contains(Problem { path: "max_tick_gap_s"@, message: long })
            &&& 0 <= i < control.sensor_sources@.len() ==> {
                let (k, s) = control.sensor_sources@[i];
                let path = "sensor_sources."@ + k;
                &&& (s.comfort matches Some(c) && !whole(0).below(c.ema_tau_s)) ==> found.contains(
                    Problem {
                        path: path + ".comfort.ema_tau_s"@,
                        message: "a time constant must be above 0"@,
                    },
                )
                &&& (s.tripwire matches Some(t) && !whole(0).below(t.ema_tau_s)) ==> found.contains(
                    Problem {
                        path: path + ".tripwire.ema_tau_s"@,
                        message: "a time constant must be above 0"@,
                    },
                )
                &&& (s.tripwire matches Some(t) && !whole(0).below(t.hysteresis_c))
                    ==> found.contains(
                    Problem {
                        path: path + ".tripwire.hysteresis_c"@,
                        message: "a hysteresis must be above 0"@,
                    },
                )
                &&& (s.tripwire matches Some(t) && !(whole(0).at_most(t.protection_target)
                    && t.protection_target.at_most(whole(100)))) ==> found.contains(
                    Problem {
                        path: path + ".tripwire.protection_target"@,
                        message: "a duty must lie between 0 and 100"@,
                    },
                )
            }
        }),
{
    let found = control_problems(control);
    let long = "a time must be above 0 and not too long"@;
    let stale = when(
        !(positive(control.max_staleness_s) && representable(control.max_staleness_s)),
        "max_staleness_s"@,
        long,
    );
    let gap = when(
        !(positive(control.max_tick_gap_s) && representable(control.max_tick_gap_s)),
        "max_tick_gap_s"@,
        long,
    );
    let sources = control.sensor_sources@;
    let all = sources_problems(sources, sources.len());
    if stale.len() > 0 {
        assert(found[0] == stale[0]);
    }
    if gap.len() > 0 {
        assert(found[stale.len() as int] == gap[0]);
    }
    if 0 <= i < sources.len() {
        let (k, s) = sources[i];
        let here = source_problems(k, s);
        let first = lemma_source_reported(sources, sources.len(), i);
        let start = stale.len() + gap.len() + first;
        assert forall|a: int| 0 <= a < here.len() implies #[trigger] found[start + a]
            == here[a] by {
            assert(all[first + a] == here[a]);
        }
        lemma_of_source(k, s, found, start);
    }
}

/// What is wrong with a source, where it stands in a row.
proof fn lemma_of_source(k: Seq<char>, s: SensorSourceConfig, found: Seq<Problem>, start: int)
    requires
        0 <= start,
        start + source_problems(k, s).len() <= found.len(),
        forall|a: int|
            0 <= a < source_problems(k, s).len() ==> #[trigger] found[start + a]
                == source_problems(k, s)[a],
    ensures
        (s.comfort matches Some(c) && !positive(c.ema_tau_s)) ==> found.contains(
            Problem {
                path: source_path(k, ".comfort.ema_tau_s"@),
                message: "a time constant must be above 0"@,
            },
        ),
        (s.tripwire matches Some(t) && !positive(t.ema_tau_s)) ==> found.contains(
            Problem {
                path: source_path(k, ".tripwire.ema_tau_s"@),
                message: "a time constant must be above 0"@,
            },
        ),
        (s.tripwire matches Some(t) && !positive(t.hysteresis_c)) ==> found.contains(
            Problem {
                path: source_path(k, ".tripwire.hysteresis_c"@),
                message: "a hysteresis must be above 0"@,
            },
        ),
        (s.tripwire matches Some(t) && !in_duty_range(t.protection_target)) ==> found.contains(
            Problem {
                path: source_path(k, ".tripwire.protection_target"@),
                message: "a duty must lie between 0 and 100"@,
            },
        ),
{
    let here = source_problems(k, s);
    let a: int = if s.comfort matches Some(c) && !positive(c.ema_tau_s) {
        1
    } else {
        0
    };
    let b: int = if s.tripwire matches Some(t) && !positive(t.ema_tau_s) {
        1
    } else {
        0
    };
    let c: int = if s.tripwire matches Some(t) && !positive(t.hysteresis_c) {
        1
    } else {
        0
    };
    if a == 1 {
        assert(found[start + 0] == here[0]);
    }
    if b == 1 {
        assert(found[start + a] == here[a]);
    }
    if c == 1 {
        assert(found[start + (a + b)] == here[a + b]);
    }
    if s.tripwire matches Some(t) && !in_duty_range(t.protection_target) {
        assert(found[start + (a + b + c)] == here[a + b + c]);
    }
}

/// Where what is wrong with a source stands among what is wrong with all.
proof fn lemma_source_reported(
    sources: Seq<(Seq<char>, SensorSourceConfig)>,
    n: nat,
    i: int,
) -> (first: int)
    requires
        0 <= i < n <= sources.len(),
    ensures
        0 <= first,
        first + source_problems(sources[i].0, sources[i].1).len() <= sources_problems(
            sources,
            n,
        ).len(),
        forall|a: int|
            0 <= a < source_problems(sources[i].0, sources[i].1).len() ==> (
            #[trigger] sources_problems(sources, n)[first + a]) == source_problems(
                sources[i].0,
                sources[i].1,
            )[a],
    decreases n,
{
    let rest = sources_problems(sources, (n - 1) as nat);
    if i == n - 1 {
        rest.len() as int
    } else {
        let first = lemma_source_reported(sources, (n - 1) as nat, i);
        assert forall|a: int|
            0 <= a < source_problems(sources[i].0, sources[i].1).len() implies (
        #[trigger] sources_problems(sources, n)[first + a]) == source_problems(
            sources[i].0,
            sources[i].1,
        )[a] by {
            assert(rest[first + a] == source_problems(sources[i].0, sources[i].1)[a]);
        }
        first
    }
}

} // verus!
