//! The per-device controller: rolling sample windows, bounce suppression,
//! and the temperature/load-to-speed curve.
//!
//! All decisions are verified here as pure functions of the tick's sensor
//! readings. The surrounding process performs the reads and writes and hands
//! the values in; `adjust_fan` updates the windows and answers with the PWM
//! value to write, or with nothing when the write must be suppressed.

pub mod endpoint;

use vstd::prelude::*;
use vstd::string::StringExecFns;

use crate::card::endpoint::Endpoint;
use crate::config::Config;
use crate::parse::{
    all_digits, digits_val, int_text_val, is_digit, lemma_digits_val_nonneg, parse_i32,
    valid_i32_text,
};

verus! {

/// Mode value written to the PWM-enable endpoint to claim software fan
/// control for this controller.
pub const SOFTWARE_CONTROL: i32 = 1;

/// Mode value written to the PWM-enable endpoint to hand fan control back
/// to the firmware's automatic curve.
pub const HARDWARE_CONTROL: i32 = 2;

/// Largest magnitude a temperature reading can have in degrees: raw sensor
/// values are millidegrees in an `i32`, so the scaled reading fits here.
pub const TEMP_LIMIT: i32 = 2147483;

/// Upper bound on the window length (and the largest magnitude of one
/// sample), chosen so that a whole window's sum always fits in a `u64`.
pub const SAMPLE_LIMIT: usize = 0x7fff_ffff;

/// Maximum of a nonempty window of samples (0 for an empty one).
pub open spec fn spec_max(s: Seq<i32>) -> int
    decreases s.len(),
{
    if s.len() == 0 {
        0
    } else if s.len() == 1 {
        s[0] as int
    } else {
        let rest = spec_max(s.drop_last());
        if s.last() as int >= rest {
            s.last() as int
        } else {
            rest
        }
    }
}

/// Minimum of a nonempty window of samples (0 for an empty one).
pub open spec fn spec_min(s: Seq<i32>) -> int
    decreases s.len(),
{
    if s.len() == 0 {
        0
    } else if s.len() == 1 {
        s[0] as int
    } else {
        let rest = spec_min(s.drop_last());
        if s.last() as int <= rest {
            s.last() as int
        } else {
            rest
        }
    }
}

/// Sum of a window of samples.
pub open spec fn spec_sum(s: Seq<i32>) -> int
    decreases s.len(),
{
    if s.len() == 0 {
        0
    } else {
        spec_sum(s.drop_last()) + s.last()
    }
}

/// Integer-truncated mean of a nonempty window.
pub open spec fn spec_avg(s: Seq<i32>) -> int {
    spec_sum(s) / s.len() as int
}

/// One sampling step of a rolling window: the new sample goes in front and
/// the window is cut back to at most `w` entries.
pub open spec fn window_update(s: Seq<i32>, v: i32, w: int) -> Seq<i32> {
    let grown = s.insert(0, v);
    if grown.len() <= w {
        grown
    } else {
        grown.take(w)
    }
}

/// The window oscillates: it holds two distinct values somewhere.
pub open spec fn has_two_distinct(s: Seq<i32>) -> bool {
    exists|i: int, j: int| 0 <= i < s.len() && 0 <= j < s.len() && s[i] != s[j]
}

/// Bounce detection: the temperatures vary, but within a band narrower than
/// five degrees — jitter rather than a trend.
pub open spec fn spec_bouncing(s: Seq<i32>) -> bool {
    spec_min(s) < spec_max(s) && spec_max(s) - spec_min(s) < 5
}

/// Load multiplier for the speed curve, scaled by ten so it stays integral:
/// ten for light load, eleven above half load, twelve above three quarters.
pub open spec fn spec_multiplier_num(load_average: int) -> int {
    if 51 <= load_average <= 75 {
        11
    } else if 76 <= load_average <= 100 {
        12
    } else {
        10
    }
}

/// One step of the speed curve: a twelfth of the maximum speed, times the
/// step, weighted by the load multiplier, truncated, and clamped so that it
/// never exceeds the maximum speed.
pub open spec fn spec_speed_step(step: int, load_average: int, max_fan: int) -> int {
    let unclamped = (max_fan / 12) * step * spec_multiplier_num(load_average) / 10;
    if unclamped < max_fan {
        unclamped
    } else {
        max_fan
    }
}

/// The tiered speed curve over the window's maximum temperature: the minimum
/// speed up to 45 degrees, then one curve step per five-degree band, and the
/// maximum speed beyond 75 degrees (or for readings below zero, which fall
/// in no band).
pub open spec fn spec_new_fan_speed(
    max_recent_temp: int,
    load_average: int,
    min_fan: int,
    max_fan: int,
) -> int {
    if 0 <= max_recent_temp <= 45 {
        min_fan
    } else if 46 <= max_recent_temp <= 50 {
        spec_speed_step(2, load_average, max_fan)
    } else if 51 <= max_recent_temp <= 55 {
        spec_speed_step(3, load_average, max_fan)
    } else if 56 <= max_recent_temp <= 60 {
        spec_speed_step(4, load_average, max_fan)
    } else if 61 <= max_recent_temp <= 65 {
        spec_speed_step(5, load_average, max_fan)
    } else if 66 <= max_recent_temp <= 70 {
        spec_speed_step(6, load_average, max_fan)
    } else if 71 <= max_recent_temp <= 75 {
        spec_speed_step(7, load_average, max_fan)
    } else {
        max_fan
    }
}

/// Integer division rounding toward zero, as the hardware's raw readings
/// are scaled.
pub open spec fn quot_toward_zero(v: int, d: int) -> int {
    if v >= 0 {
        v / d
    } else {
        -((-v) / d)
    }
}

/// The speed the curve proposes for the card's windows as they stand.
pub open spec fn spec_target_speed(card: Card, min_fan: int, max_fan: int) -> int {
    spec_new_fan_speed(
        spec_max(card.temp_window@),
        spec_avg(card.load_window@),
        min_fan,
        max_fan,
    )
}

/// The tick writes nothing: either the proposed speed equals the current
/// duty, or it would lower the duty while the temperature is merely
/// bouncing.
pub open spec fn spec_write_suppressed(card: Card, current: int, min_fan: int, max_fan: int) -> bool {
    let target = spec_target_speed(card, min_fan, max_fan);
    (target < current && spec_bouncing(card.temp_window@)) || target == current
}

/// The literal announcement that precedes the load percentage in the
/// monitoring report.
pub open spec fn load_pattern() -> Seq<char> {
    "GPU Load: "@
}

/// The announcement pattern stands at position `i` of the report.
pub open spec fn pattern_at(s: Seq<char>, i: int) -> bool {
    &&& 0 <= i
    &&& i + 10 <= s.len()
    &&& s.subrange(i, i + 10) == load_pattern()
}

/// A complete load report stands at position `i`: the announcement, then
/// `k` digits, then a space and a percent sign.
pub open spec fn gpu_capture_at(s: Seq<char>, i: int, k: int) -> bool {
    &&& 1 <= k
    &&& pattern_at(s, i)
    &&& i + 10 + k + 2 <= s.len()
    &&& all_digits(s.subrange(i + 10, i + 10 + k))
    &&& s[i + 10 + k] == ' '
    &&& s[i + 10 + k + 1] == '%'
}

/// Some complete load report stands at position `i`.
pub open spec fn gpu_match_at(s: Seq<char>, i: int) -> bool {
    exists|k: int| gpu_capture_at(s, i, k)
}

/// The leftmost complete load report stands at position `i`.
pub open spec fn gpu_first_match(s: Seq<char>, i: int) -> bool {
    &&& gpu_match_at(s, i)
    &&& forall|j: int| 0 <= j < i ==> !gpu_match_at(s, j)
}

/// The percentage announced by the report at position `i`.
pub open spec fn gpu_load_value(s: Seq<char>, i: int) -> int {
    digits_val(s.subrange(i + 10, i + 10 + (choose|k: int| gpu_capture_at(s, i, k))))
}

/// The monitoring text announces a load somewhere, and the announced value
/// fits an `i32`.
pub open spec fn gpu_report_ok(s: Seq<char>) -> bool {
    exists|i: int| gpu_first_match(s, i) && gpu_load_value(s, i) <= 0x7fff_ffff
}

/// The load announced by the leftmost complete report.
pub open spec fn spec_gpu_load(s: Seq<char>) -> int {
    gpu_load_value(s, choose|i: int| gpu_first_match(s, i))
}

/// A digit run bounded by a non-digit pins every capture at `i` to the same
/// length: the digits of a report must be exactly the run.
proof fn lemma_run_pins_capture(s: Seq<char>, i: int, e: int)
    requires
        0 <= i,
        i + 10 <= e <= s.len(),
        all_digits(s.subrange(i + 10, e)),
        e == s.len() || !is_digit(s[e]),
    ensures
        forall|k: int| gpu_capture_at(s, i, k) ==> i + 10 + k == e,
{
    assert forall|k: int| gpu_capture_at(s, i, k) implies i + 10 + k == e by {
        if i + 10 + k < e {
            // the capture's closing space would lie inside the digit run
            assert(is_digit(s.subrange(i + 10, e)[k]));
            assert(s[i + 10 + k] == ' ');
        } else if i + 10 + k > e {
            // the capture's digits would cover the non-digit at `e`
            assert(is_digit(s.subrange(i + 10, i + 10 + k)[e - (i + 10)]));
        }
    }
}

/// There is at most one leftmost report position.
proof fn lemma_first_match_unique(s: Seq<char>, i1: int, i2: int)
    requires
        gpu_first_match(s, i1),
        gpu_first_match(s, i2),
    ensures
        i1 == i2,
{
}

/// Whether the character at `e` is a decimal digit.
fn digit_at(text: &str, e: usize) -> (r: bool)
    requires
        e < text@.len(),
    ensures
        r == is_digit(text@[e as int]),
{
    let cv = text.get_char(e) as u32;
    48 <= cv && cv <= 57
}

/// Whether the announcement pattern stands at position `i` of the text.
#[verifier::loop_isolation(false)]
fn matches_pattern_at(text: &str, i: usize) -> (r: bool)
    requires
        i <= text@.len(),
    ensures
        r == pattern_at(text@, i as int),
{
    let pat = "GPU Load: ";
    proof {
        reveal_strlit("GPU Load: ");
    }
    let n = text.unicode_len();
    if n - i < 10 {
        return false;
    }
    let mut j: usize = 0;
    while j < 10
        invariant
            0 <= j <= 10,
            i + 10 <= text@.len(),
            pat@ == load_pattern(),
            pat@.len() == 10,
            forall|jj: int| 0 <= jj < j ==> text@[i + jj] == load_pattern()[jj],
        decreases 10 - j,
    {
        if text.get_char(i + j) != pat.get_char(j) {
            proof {
                assert(text@.subrange(i as int, i as int + 10)[j as int] == text@[i + j]);
            }
            return false;
        }
        j = j + 1;
    }
    proof {
        assert(text@.subrange(i as int, i as int + 10) =~= load_pattern());
    }
    true
}

/// One device's controller: resolved endpoint paths and the two rolling
/// sample windows.
pub struct Card {
    pub config: Config,
    pub path: String,
    pub endpoint_path: String,
    pub monitoring_path: String,
    pub temp_window: Vec<i32>,
    pub load_window: Vec<i32>,
}

impl Card {
    /// Well-formedness: the configured window bound is positive and small
    /// enough for exact averaging, both windows respect it, temperatures are
    /// scaled sensor readings, and loads are non-negative percentages as
    /// read.
    pub open spec fn wf(&self) -> bool {
        &&& 1 <= self.config.measurement_window <= SAMPLE_LIMIT
        &&& self.temp_window@.len() <= self.config.measurement_window
        &&& self.load_window@.len() <= self.config.measurement_window
        &&& forall|i: int|
            0 <= i < self.temp_window@.len() ==> -TEMP_LIMIT <= #[trigger] self.temp_window@[i]
                <= TEMP_LIMIT
        &&& forall|i: int| 0 <= i < self.load_window@.len() ==> #[trigger] self.load_window@[i] >= 0
    }

    /// Builds the controller for one device root: resolves the endpoint
    /// directory and the monitoring path, and yields a controller only when
    /// the device directory and all five required endpoints are present.
    pub fn new(path: &String, config: Config) -> (r: Option<Card>)
        requires
            1 <= config.measurement_window <= SAMPLE_LIMIT,
        ensures
            r is Some ==> r->Some_0.wf(),
            r is Some ==> r->Some_0.config == config,
            r is Some ==> r->Some_0.path@ == path@,
            r is Some ==> r->Some_0.endpoint_path@ == path@ + "/"@ + config.endpoint_path@,
            r is Some ==> r->Some_0.monitoring_path@ == config.monitoring_path@,
            r is Some ==> r->Some_0.temp_window@ == Seq::<i32>::empty(),
            r is Some ==> r->Some_0.load_window@ == Seq::<i32>::empty(),
    {
        let mut full_endpoint_path = path.clone();
        full_endpoint_path.append("/");
        full_endpoint_path.append(config.endpoint_path.as_str());
        proof {
            assert(full_endpoint_path@ =~= path@ + "/"@ + config.endpoint_path@);
        }
        let monitoring_path = config.monitoring_path.clone();

        let card = Card {
            path: path.clone(),
            endpoint_path: full_endpoint_path,
            monitoring_path,
            config,
            temp_window: Vec::new(),
            load_window: Vec::new(),
        };

        if card.is_present() && card.verify() {
            Some(card)
        } else {
            None
        }
    }

    /// Relies on std::path::Path::is_dir: true exactly when the device root
    /// names an existing directory. The answer depends on the filesystem, so
    /// nothing is promised of it.
    #[verifier::external_body]
    pub fn is_present(&self) -> bool {
        std::path::Path::new(self.path.as_str()).is_dir()
    }

    /// All five required endpoints are present as files. The answer depends
    /// on the filesystem, so nothing is promised of it; construction treats
    /// a missing endpoint as "not a controllable device".
    pub fn verify(&self) -> bool {
        let temp = self.endpoint("temp1_input").is_present();
        let max = self.endpoint("pwm1_max").is_present();
        let min = self.endpoint("pwm1_min").is_present();
        let enable = self.endpoint("pwm1_enable").is_present();
        let value = self.endpoint("pwm1").is_present();
        temp && max && min && enable && value
    }

    /// The endpoint for one named attribute inside the resolved endpoint
    /// directory.
    pub fn endpoint(&self, name: &str) -> (r: Endpoint)
        ensures
            r.path@ == self.endpoint_path@ + "/"@ + name@,
    {
        let mut p = self.endpoint_path.clone();
        p.append("/");
        p.append(name);
        proof {
            assert(p@ =~= self.endpoint_path@ + "/"@ + name@);
        }
        Endpoint::new(p)
    }

    /// The endpoint carrying the free-text monitoring report.
    pub fn monitoring_endpoint(&self) -> (r: Endpoint)
        ensures
            r.path@ == self.monitoring_path@,
    {
        Endpoint::new(self.monitoring_path.clone())
    }

    /// Largest sample in a nonempty window.
    pub fn max_in_window(w: &Vec<i32>) -> (r: i32)
        requires
            w@.len() >= 1,
        ensures
            r as int == spec_max(w@),
    {
        let mut m = w[0];
        let mut i: usize = 1;
        proof {
            assert(w@.take(1) =~= seq![w@[0]]);
        }
        while i < w.len()
            invariant
                1 <= i <= w@.len(),
                m as int == spec_max(w@.take(i as int)),
            decreases w@.len() - i,
        {
            proof {
                assert(w@.take(i + 1).drop_last() =~= w@.take(i as int));
                assert(w@.take(i + 1).last() == w@[i as int]);
            }
            if w[i] > m {
                m = w[i];
            }
            i = i + 1;
        }
        proof {
            assert(w@.take(w@.len() as int) =~= w@);
        }
        m
    }

    /// Smallest sample in a nonempty window.
    pub fn min_in_window(w: &Vec<i32>) -> (r: i32)
        requires
            w@.len() >= 1,
        ensures
            r as int == spec_min(w@),
    {
        let mut m = w[0];
        let mut i: usize = 1;
        proof {
            assert(w@.take(1) =~= seq![w@[0]]);
        }
        while i < w.len()
            invariant
                1 <= i <= w@.len(),
                m as int == spec_min(w@.take(i as int)),
            decreases w@.len() - i,
        {
            proof {
                assert(w@.take(i + 1).drop_last() =~= w@.take(i as int));
                assert(w@.take(i + 1).last() == w@[i as int]);
            }
            if w[i] < m {
                m = w[i];
            }
            i = i + 1;
        }
        proof {
            assert(w@.take(w@.len() as int) =~= w@);
        }
        m
    }

    /// Integer-truncated mean of a nonempty window of non-negative samples.
    pub fn calculate_avg_load(recent_load: &Vec<i32>) -> (r: i32)
        requires
            1 <= recent_load@.len() <= SAMPLE_LIMIT,
            forall|i: int| 0 <= i < recent_load@.len() ==> #[trigger] recent_load@[i] >= 0,
        ensures
            r as int == spec_avg(recent_load@),
            0 <= r,
    {
        let n = recent_load.len();
        let mut sum: u64 = 0;
        let mut i: usize = 0;
        while i < n
            invariant
                0 <= i <= n,
                n == recent_load@.len() <= SAMPLE_LIMIT,
                forall|k: int| 0 <= k < recent_load@.len() ==> #[trigger] recent_load@[k] >= 0,
                sum == spec_sum(recent_load@.take(i as int)),
                sum <= i * (SAMPLE_LIMIT as int),
            decreases n - i,
        {
            proof {
                assert(recent_load@.take(i + 1).drop_last() =~= recent_load@.take(i as int));
                assert(recent_load@.take(i + 1).last() == recent_load@[i as int]);
            }
            sum = sum + (recent_load[i] as u64);
            i = i + 1;
        }
        proof {
            assert(recent_load@.take(n as int) =~= recent_load@);
        }
        let avg = sum / (n as u64);
        proof {
            assert(avg <= SAMPLE_LIMIT as u64) by (nonlinear_arith)
                requires
                    avg == sum / (n as u64),
                    sum <= n * (SAMPLE_LIMIT as int),
                    1 <= n,
            ;
        }
        avg as i32
    }

    /// One step of the speed curve, in exact integer arithmetic.
    pub fn speed_step(step: i32, load_average: i32, max_fan: i32) -> (r: i32)
        requires
            0 <= step,
            0 <= max_fan,
        ensures
            r as int == spec_speed_step(step as int, load_average as int, max_fan as int),
    {
        let base: u64 = (max_fan as u64) / 12;
        let multiplier_num: u64 = if 51 <= load_average && load_average <= 75 {
            11
        } else if 76 <= load_average && load_average <= 100 {
            12
        } else {
            10
        };
        proof {
            assert(base <= 0xfff_ffff) by (nonlinear_arith)
                requires
                    base == (max_fan as u64) / 12,
                    max_fan as u64 <= 0x7fff_ffff,
            ;
            assert(base * (step as u64) <= 0xfff_ffff * 0x8000_0000) by (nonlinear_arith)
                requires
                    base <= 0xfff_ffff,
                    step as u64 <= 0x8000_0000,
            ;
            assert(base * (step as u64) * multiplier_num <= 0xfff_ffff * 0x8000_0000 * 12)
                by (nonlinear_arith)
                requires
                    base * (step as u64) <= 0xfff_ffff * 0x8000_0000,
                    multiplier_num <= 12,
            ;
        }
        let speed: u64 = base * (step as u64) * multiplier_num / 10;
        if speed < max_fan as u64 {
            speed as i32
        } else {
            max_fan
        }
    }

    /// The tiered, load-weighted speed curve over the window's maximum
    /// temperature.
    pub fn calculate_new_fan_speed(
        max_recent_temp: i32,
        load_average: i32,
        min_fan: i32,
        max_fan: i32,
    ) -> (r: i32)
        requires
            0 <= min_fan,
            0 <= max_fan,
        ensures
            r as int == spec_new_fan_speed(
                max_recent_temp as int,
                load_average as int,
                min_fan as int,
                max_fan as int,
            ),
    {
        if 0 <= max_recent_temp && max_recent_temp <= 45 {
            min_fan
        } else if 46 <= max_recent_temp && max_recent_temp <= 50 {
            Self::speed_step(2, load_average, max_fan)
        } else if 51 <= max_recent_temp && max_recent_temp <= 55 {
            Self::speed_step(3, load_average, max_fan)
        } else if 56 <= max_recent_temp && max_recent_temp <= 60 {
            Self::speed_step(4, load_average, max_fan)
        } else if 61 <= max_recent_temp && max_recent_temp <= 65 {
            Self::speed_step(5, load_average, max_fan)
        } else if 66 <= max_recent_temp && max_recent_temp <= 70 {
            Self::speed_step(6, load_average, max_fan)
        } else if 71 <= max_recent_temp && max_recent_temp <= 75 {
            Self::speed_step(7, load_average, max_fan)
        } else {
            max_fan
        }
    }

    /// The current temperature in whole degrees: the raw millidegree text,
    /// parsed and scaled down by a thousand, truncating toward zero. Text
    /// that is not an integer fitting an `i32` is a fatal parse failure,
    /// reported as no value.
    pub fn current_temperature(raw: &str) -> (r: Option<i32>)
        ensures
            r is Some <==> valid_i32_text(raw@),
            r is Some ==> r->Some_0 as int == quot_toward_zero(int_text_val(raw@), 1000),
            r is Some ==> -TEMP_LIMIT <= r->Some_0 <= TEMP_LIMIT,
    {
        match parse_i32(raw) {
            None => None,
            Some(v) => {
                if v >= 0 {
                    Some(((v as u32) / 1000) as i32)
                } else if v == i32::MIN {
                    Some(-TEMP_LIMIT)
                } else {
                    Some(-((((-v) as u32) / 1000) as i32))
                }
            },
        }
    }

    /// One sampling tick's decision, from this tick's readings: the new
    /// temperature and load samples enter the windows, and the result is the
    /// duty value to write — or nothing, when the write is suppressed
    /// because the proposal already matches the current duty or would lower
    /// it during a bounce.
    pub fn adjust_fan(
        &mut self,
        temp: i32,
        gpu_load: i32,
        current_fan_speed: i32,
        min_fan: i32,
        max_fan: i32,
    ) -> (r: Option<i32>)
        requires
            old(self).wf(),
            -TEMP_LIMIT <= temp <= TEMP_LIMIT,
            0 <= gpu_load,
            0 <= min_fan,
            0 <= max_fan,
        ensures
            final(self).wf(),
            final(self).config == old(self).config,
            final(self).path == old(self).path,
            final(self).endpoint_path == old(self).endpoint_path,
            final(self).monitoring_path == old(self).monitoring_path,
            final(self).temp_window@ == window_update(
                old(self).temp_window@,
                temp,
                old(self).config.measurement_window as int,
            ),
            final(self).load_window@ == window_update(
                old(self).load_window@,
                gpu_load,
                old(self).config.measurement_window as int,
            ),
            r is None <==> spec_write_suppressed(
                *final(self),
                current_fan_speed as int,
                min_fan as int,
                max_fan as int,
            ),
            r is Some ==> r->Some_0 as int == spec_target_speed(
                *final(self),
                min_fan as int,
                max_fan as int,
            ),
    {
        let window = self.config.measurement_window;

        self.temp_window.insert(0, temp);
        self.temp_window.truncate(window);
        self.load_window.insert(0, gpu_load);
        self.load_window.truncate(window);

        proof {
            let tw = old(self).temp_window@.insert(0, temp);
            let lw = old(self).load_window@.insert(0, gpu_load);
            if tw.len() > window {
                assert(tw.subrange(0, window as int) =~= tw.take(window as int));
            }
            if lw.len() > window {
                assert(lw.subrange(0, window as int) =~= lw.take(window as int));
            }
            assert(self.temp_window@ == window_update(
                old(self).temp_window@,
                temp,
                window as int,
            ));
            assert(self.load_window@ == window_update(
                old(self).load_window@,
                gpu_load,
                window as int,
            ));
            assert forall|i: int|
                0 <= i < self.temp_window@.len() implies -TEMP_LIMIT
                <= #[trigger] self.temp_window@[i] <= TEMP_LIMIT by {
                if i > 0 {
                    assert(self.temp_window@[i] == old(self).temp_window@[i - 1]);
                }
            }
            assert forall|i: int|
                0 <= i < self.load_window@.len() implies #[trigger] self.load_window@[i] >= 0 by {
                if i > 0 {
                    assert(self.load_window@[i] == old(self).load_window@[i - 1]);
                }
            }
        }

        let max_recent_temp = Self::max_in_window(&self.temp_window);
        let load_average = Self::calculate_avg_load(&self.load_window);
        let new_fan_speed = Self::calculate_new_fan_speed(
            max_recent_temp,
            load_average,
            min_fan,
            max_fan,
        );
        let is_bouncing = self.bouncing();

        if new_fan_speed < current_fan_speed && is_bouncing {
            None
        } else if new_fan_speed == current_fan_speed {
            None
        } else {
            Some(new_fan_speed)
        }
    }

    /// The GPU load percentage announced by the monitoring report, when the
    /// monitoring endpoint is present; a missing endpoint (no text) counts
    /// as zero load. A present report without a complete announcement, or
    /// with an announced value too large for an `i32`, is a fatal parse
    /// failure, reported as no value.
    #[verifier::loop_isolation(false)]
    pub fn gpu_usage_percentage(monitoring_info: Option<&str>) -> (r: Option<i32>)
        ensures
            monitoring_info is None ==> r == Some(0i32),
            monitoring_info is Some ==> (r is Some <==> gpu_report_ok(monitoring_info->Some_0@)),
            monitoring_info is Some && r is Some ==> r->Some_0 as int == spec_gpu_load(
                monitoring_info->Some_0@,
            ),
            r is Some ==> r->Some_0 >= 0,
    {
        let text = match monitoring_info {
            None => { return Some(0) },
            Some(t) => t,
        };
        let n = text.unicode_len();
        let mut i: usize = 0;
        while i < n
            invariant
                0 <= i <= n,
                n == text@.len(),
                forall|j: int| 0 <= j < i ==> !gpu_match_at(text@, j),
            decreases n - i,
        {
            if matches_pattern_at(text, i) {
                let digits_start = i + 10;
                let mut e = digits_start;
                let mut acc: u64 = 0;
                let mut over = false;
                while e < n && digit_at(text, e)
                    invariant
                        digits_start <= e <= n,
                        digits_start == i + 10,
                        n == text@.len(),
                        all_digits(text@.subrange(digits_start as int, e as int)),
                        !over ==> acc == digits_val(
                            text@.subrange(digits_start as int, e as int),
                        ) && acc <= 0x7fff_ffff,
                        over ==> digits_val(text@.subrange(digits_start as int, e as int))
                            > 0x7fff_ffff,
                    decreases n - e,
                {
                    let c = text.get_char(e);
                    let cv = c as u32;
                    proof {
                        let prefix = text@.subrange(digits_start as int, e as int);
                        let grown = text@.subrange(digits_start as int, e + 1);
                        assert(grown.drop_last() =~= prefix);
                        assert(grown.last() == text@[e as int]);
                        assert(all_digits(grown));
                        if over {
                            lemma_digits_val_nonneg(prefix);
                            assert(digits_val(prefix) * 10 >= digits_val(prefix))
                                by (nonlinear_arith)
                                requires
                                    digits_val(prefix) >= 0,
                            ;
                        }
                    }
                    if !over {
                        acc = acc * 10 + ((cv - 48) as u64);
                        if acc > 0x7fff_ffff {
                            over = true;
                        }
                    }
                    e = e + 1;
                }
                // the run ends at `e`: either the text ends or a non-digit
                // follows, so every capture here has exactly this run
                proof {
                    lemma_run_pins_capture(text@, i as int, e as int);
                }
                if e == digits_start {
                    // the announcement is not followed by any digit
                    proof {
                        assert forall|k: int| !gpu_capture_at(text@, i as int, k) by {
                            if gpu_capture_at(text@, i as int, k) {
                                assert(i + 10 + k == e);
                            }
                        }
                        assert(!gpu_match_at(text@, i as int));
                    }
                } else {
                    let tail_ok = n - e > 1 && text.get_char(e) == ' ' && text.get_char(e + 1)
                        == '%';
                    if tail_ok {
                        proof {
                            let s = text@;
                            let ii = i as int;
                            let k_run = e - (i + 10);
                            assert(gpu_capture_at(s, ii, k_run));
                            assert(gpu_match_at(s, ii));
                            assert(gpu_first_match(s, ii));
                            let kc = choose|k: int| gpu_capture_at(s, ii, k);
                            assert(gpu_capture_at(s, ii, kc));
                            assert(ii + 10 + kc == e);
                            assert(gpu_load_value(s, ii) == digits_val(
                                s.subrange(ii + 10, e as int),
                            ));
                        }
                        if over {
                            // the announced value cannot fit an i32
                            proof {
                                let s = text@;
                                let ii = i as int;
                                assert forall|j: int|
                                    !(gpu_first_match(s, j) && gpu_load_value(s, j)
                                        <= 0x7fff_ffff) by {
                                    if gpu_first_match(s, j) {
                                        lemma_first_match_unique(s, j, ii);
                                    }
                                }
                            }
                            return None;
                        }
                        proof {
                            let s = text@;
                            let ii = i as int;
                            assert(gpu_report_ok(s));
                            let fi = choose|j: int| gpu_first_match(s, j);
                            assert(gpu_first_match(s, fi));
                            lemma_first_match_unique(s, fi, ii);
                            lemma_digits_val_nonneg(s.subrange(ii + 10, e as int));
                        }
                        return Some(acc as i32);
                    } else {
                        // digits, but no closing " %": no capture here
                        proof {
                            assert forall|k: int| !gpu_capture_at(text@, i as int, k) by {
                                if gpu_capture_at(text@, i as int, k) {
                                    assert(i + 10 + k == e);
                                }
                            }
                            assert(!gpu_match_at(text@, i as int));
                        }
                    }
                }
            } else {
                proof {
                    assert forall|k: int| !gpu_capture_at(text@, i as int, k) by {}
                    assert(!gpu_match_at(text@, i as int));
                }
            }
            i = i + 1;
        }
        // no complete report anywhere in the text
        proof {
            assert forall|j: int| !(gpu_first_match(text@, j) && gpu_load_value(text@, j)
                <= 0x7fff_ffff) by {
                if gpu_first_match(text@, j) {
                    let k = choose|k: int| gpu_capture_at(text@, j, k);
                    assert(gpu_capture_at(text@, j, k));
                }
            }
        }
        None
    }

    /// Whether the temperature window is bouncing: it holds two distinct
    /// values, yet its spread stays under five degrees.
    pub fn bouncing(&self) -> (r: bool)
        requires
            self.wf(),
            self.temp_window@.len() >= 1,
        ensures
            r == spec_bouncing(self.temp_window@),
            r == (has_two_distinct(self.temp_window@) && spec_max(self.temp_window@) - spec_min(
                self.temp_window@,
            ) < 5),
    {
        proof {
            lemma_minmax_bounds(self.temp_window@);
            lemma_distinct_iff_spread(self.temp_window@);
        }
        let max_recent_temp = Self::max_in_window(&self.temp_window);
        let min_recent_temp = Self::min_in_window(&self.temp_window);
        let difference = max_recent_temp - min_recent_temp;
        min_recent_temp < max_recent_temp && difference < 5
    }
}

/// How one sampling step shapes a rolling window: the newest sample stands
/// first, the previous samples follow in order, and the length grows by one
/// until it reaches the bound `w`, where it stays. In particular, once at
/// least `w` samples have arrived the window holds exactly `w` entries.
pub proof fn law_window_update(s: Seq<i32>, v: i32, w: int)
    requires
        1 <= w,
        s.len() <= w,
    ensures
        window_update(s, v, w).len() == if s.len() < w {
            s.len() as int + 1
        } else {
            w
        },
        window_update(s, v, w)[0] == v,
        forall|i: int| 1 <= i < window_update(s, v, w).len() ==> window_update(s, v, w)[i] == s[i
            - 1],
{
}

/// The rolling window after a whole run of samples, applied oldest first.
pub open spec fn run_window(samples: Seq<i32>, w: int) -> Seq<i32>
    decreases samples.len(),
{
    if samples.len() == 0 {
        Seq::empty()
    } else {
        window_update(run_window(samples.drop_last(), w), samples.last(), w)
    }
}

/// Over any run of samples the window length is the number of samples seen,
/// capped at the bound `w`: after at least `w` ticks it holds exactly `w`
/// entries, with the most recent sample first.
pub proof fn law_window_fills(samples: Seq<i32>, w: int)
    requires
        1 <= w,
    ensures
        run_window(samples, w).len() == if samples.len() < w {
            samples.len() as int
        } else {
            w
        },
        samples.len() >= 1 ==> run_window(samples, w)[0] == samples.last(),
    decreases samples.len(),
{
    if samples.len() > 0 {
        law_window_fills(samples.drop_last(), w);
    }
}

/// A curve step never exceeds the maximum fan speed, and for a fixed load
/// it is monotonically non-decreasing in the step.
pub proof fn law_speed_step_monotone(step1: int, step2: int, load_average: int, max_fan: int)
    requires
        0 <= step1 <= step2,
        0 <= max_fan,
    ensures
        spec_speed_step(step1, load_average, max_fan) <= spec_speed_step(
            step2,
            load_average,
            max_fan,
        ),
        spec_speed_step(step2, load_average, max_fan) <= max_fan,
{
    let base = max_fan / 12;
    let m = spec_multiplier_num(load_average);
    assert(base * step1 * m <= base * step2 * m) by (nonlinear_arith)
        requires
            0 <= base,
            0 <= step1 <= step2,
            10 <= m,
    ;
    vstd::arithmetic::div_mod::lemma_div_is_ordered(base * step1 * m, base * step2 * m, 10);
}

/// The extremes of a nonempty window are ordered, bound every sample, and
/// are themselves samples.
pub proof fn lemma_minmax_bounds(s: Seq<i32>)
    requires
        s.len() >= 1,
    ensures
        spec_min(s) <= spec_max(s),
        forall|i: int| 0 <= i < s.len() ==> spec_min(s) <= #[trigger] s[i] as int <= spec_max(s),
        exists|i: int| 0 <= i < s.len() && s[i] as int == spec_max(s),
        exists|i: int| 0 <= i < s.len() && s[i] as int == spec_min(s),
    decreases s.len(),
{
    if s.len() > 1 {
        lemma_minmax_bounds(s.drop_last());
        assert forall|i: int| 0 <= i < s.len() implies spec_min(s) <= #[trigger] s[i] as int
            <= spec_max(s) by {
            if i < s.len() - 1 {
                assert(s.drop_last()[i] == s[i]);
            }
        }
        let last = s.len() - 1;
        if s.last() as int == spec_max(s) {
            assert(s[last] as int == spec_max(s));
        } else {
            let j = choose|j: int|
                0 <= j < s.drop_last().len() && s.drop_last()[j] as int == spec_max(s.drop_last());
            assert(s[j] as int == spec_max(s));
        }
        if s.last() as int == spec_min(s) {
            assert(s[last] as int == spec_min(s));
        } else {
            let j = choose|j: int|
                0 <= j < s.drop_last().len() && s.drop_last()[j] as int == spec_min(s.drop_last());
            assert(s[j] as int == spec_min(s));
        }
    } else {
        assert(s[0] as int == spec_max(s));
        assert(s[0] as int == spec_min(s));
    }
}

/// A window holds two distinct values exactly when its minimum lies strictly
/// below its maximum.
pub proof fn lemma_distinct_iff_spread(s: Seq<i32>)
    requires
        s.len() >= 1,
    ensures
        has_two_distinct(s) <==> spec_min(s) < spec_max(s),
{
    lemma_minmax_bounds(s);
    if spec_min(s) < spec_max(s) {
        let i = choose|i: int| 0 <= i < s.len() && s[i] as int == spec_max(s);
        let j = choose|j: int| 0 <= j < s.len() && s[j] as int == spec_min(s);
        assert(s[i] != s[j]);
    }
    if has_two_distinct(s) {
        let (i, j) = choose|i: int, j: int|
            0 <= i < s.len() && 0 <= j < s.len() && s[i] != s[j];
        assert(spec_min(s) <= s[i] as int <= spec_max(s));
        assert(spec_min(s) <= s[j] as int <= spec_max(s));
    }
}

} // verus!
