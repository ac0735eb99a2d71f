//! Spinner presets and animation state.
use vstd::prelude::*;
use core::time::Duration;

verus! {

/// The number of whole milliseconds that `Duration::as_millis` reports.
pub uninterp spec fn millis_of(d: Duration) -> u128;

/// The largest value `Duration::as_millis` can report: `u64::MAX` seconds
/// plus 999 milliseconds.
pub open spec fn max_duration_millis() -> u128 {
    18446744073709551615999u128
}

/// The duration `Duration::from_millis` builds from a count of milliseconds.
pub uninterp spec fn duration_of_millis(ms: u64) -> Duration;

/// `Duration::from_millis`: the duration of `ms` milliseconds (a function of
/// `ms` alone), which, as the documentation states, reports `ms` whole
/// milliseconds.
#[verifier::external_body]
fn duration_from_millis(ms: u64) -> (d: Duration)
    ensures
        d == duration_of_millis(ms),
        millis_of(d) == ms,
{
    Duration::from_millis(ms)
}

/// `Duration::as_millis`: the total number of whole milliseconds, which can
/// never exceed that of `Duration::MAX`.
#[verifier::external_body]
fn duration_as_millis(d: Duration) -> (r: u128)
    ensures
        r == millis_of(d),
        r <= max_duration_millis(),
{
    d.as_millis()
}

/// Built-in spinner animations.
#[derive(Debug, Clone, Copy, PartialEq, Eq)]
pub enum SpinnerPreset {
    Dots,
    Line,
    Pulse,
    Arrow,
    Bounce,
}

/// Where a spinner takes its frames from.
#[derive(Debug, Clone, Copy)]
pub enum SpinnerFrames<'a> {
    Preset(SpinnerPreset),
    Custom(&'a [&'a str]),
}

/// A spinner: its frames, the time between frames and the direction.
#[derive(Debug, Clone, Copy)]
pub struct SpinnerSpec<'a> {
    frames: SpinnerFrames<'a>,
    interval: Duration,
    reversed: bool,
}

/// Animation state: the current frame counter and the time not yet spent on a step.
#[derive(Debug, Clone)]
pub struct SpinnerState {
    frame: usize,
    elapsed_ms: u128,
}

pub open spec fn preset_frames(p: SpinnerPreset) -> Seq<&'static str> {
    match p {
        SpinnerPreset::Dots => seq!["⠋", "⠙", "⠹", "⠸", "⠼", "⠴", "⠦", "⠧", "⠇", "⠏"],
        SpinnerPreset::Line => seq!["-", "\\", "|", "/"],
        SpinnerPreset::Pulse => seq!["∙∙∙", "●∙∙", "∙●∙", "∙∙●"],
        SpinnerPreset::Arrow => seq!["←", "↖", "↑", "↗", "→", "↘", "↓", "↙"],
        SpinnerPreset::Bounce => seq!["⠁", "⠂", "⠄", "⠂"],
    }
}

pub open spec fn preset_interval_ms(p: SpinnerPreset) -> u128 {
    match p {
        SpinnerPreset::Dots => 80,
        SpinnerPreset::Line => 120,
        SpinnerPreset::Pulse => 100,
        SpinnerPreset::Arrow => 90,
        SpinnerPreset::Bounce => 110,
    }
}

pub open spec fn preset_label(p: SpinnerPreset) -> &'static str {
    match p {
        SpinnerPreset::Dots => "dots",
        SpinnerPreset::Line => "line",
        SpinnerPreset::Pulse => "pulse",
        SpinnerPreset::Arrow => "arrow",
        SpinnerPreset::Bounce => "bounce",
    }
}

/// The interval that a requested interval is stored as: at least one
/// millisecond and at most `u64::MAX` milliseconds.
pub open spec fn normalized_ms(ms: u128) -> u128 {
    if ms < 1 { 1 } else if ms > u64::MAX as u128 { u64::MAX as u128 } else { ms }
}

impl SpinnerPreset {
    pub fn frames(self) -> (r: &'static [&'static str])
        ensures
            r@ == preset_frames(self),
    {
        match self {
            SpinnerPreset::Dots => &["⠋", "⠙", "⠹", "⠸", "⠼", "⠴", "⠦", "⠧", "⠇", "⠏"],
            SpinnerPreset::Line => &["-", "\\", "|", "/"],
            SpinnerPreset::Pulse => &["∙∙∙", "●∙∙", "∙●∙", "∙∙●"],
            SpinnerPreset::Arrow => &["←", "↖", "↑", "↗", "→", "↘", "↓", "↙"],
            SpinnerPreset::Bounce => &["⠁", "⠂", "⠄", "⠂"],
        }
    }

    pub fn default_interval(self) -> (r: Duration)
        ensures
            r == duration_of_millis(preset_interval_ms(self) as u64),
            millis_of(r) == preset_interval_ms(self),
    {
        match self {
            SpinnerPreset::Dots => duration_from_millis(80),
            SpinnerPreset::Line => duration_from_millis(120),
            SpinnerPreset::Pulse => duration_from_millis(100),
            SpinnerPreset::Arrow => duration_from_millis(90),
            SpinnerPreset::Bounce => duration_from_millis(110),
        }
    }

    pub fn label(self) -> (r: &'static str)
        ensures
            r == preset_label(self),
    {
        match self {
            SpinnerPreset::Dots => "dots",
            SpinnerPreset::Line => "line",
            SpinnerPreset::Pulse => "pulse",
            SpinnerPreset::Arrow => "arrow",
            SpinnerPreset::Bounce => "bounce",
        }
    }
}

impl<'a> SpinnerFrames<'a> {
    pub open spec fn view_frames(&self) -> Seq<&'a str> {
        match self {
            SpinnerFrames::Preset(p) => preset_frames(*p),
            SpinnerFrames::Custom(f) => f@,
        }
    }

    pub fn as_slice(&self) -> (r: &'a [&'a str])
        ensures
            r@ == self.view_frames(),
    {
        match self {
            SpinnerFrames::Preset(preset) => preset.frames(),
            SpinnerFrames::Custom(frames) => frames,
        }
    }
}

/// The stored interval of a requested one (`Duration::from_millis` of the
/// clamped millisecond count).
fn normalize_interval(interval: Duration) -> (r: Duration)
    ensures
        r == duration_of_millis(normalized_ms(millis_of(interval)) as u64),
        millis_of(r) == normalized_ms(millis_of(interval)),
{
    let ms = duration_as_millis(interval);
    let ms = if ms < 1 { 1 } else { ms };
    let ms = if ms > u64::MAX as u128 { u64::MAX as u128 } else { ms };
    duration_from_millis(ms as u64)
}

impl<'a> SpinnerSpec<'a> {
    /// The frames the spinner cycles through.
    pub closed spec fn frame_seq(&self) -> Seq<&'a str> {
        self.frames.view_frames()
    }

    /// The stored interval.
    pub closed spec fn interval_of(&self) -> Duration {
        self.interval
    }

    /// Whether frames are read from the end.
    pub closed spec fn reversed_of(&self) -> bool {
        self.reversed
    }

    /// Whether the spinner uses custom frames.
    pub closed spec fn is_custom(&self) -> bool {
        self.frames is Custom
    }

    /// The preset the spinner uses, if any.
    pub closed spec fn preset_of(&self) -> SpinnerPreset {
        match self.frames {
            SpinnerFrames::Preset(p) => p,
            SpinnerFrames::Custom(_) => SpinnerPreset::Dots,
        }
    }

    pub fn new(preset: SpinnerPreset) -> (r: Self)
        ensures
            r.frame_seq() == preset_frames(preset),
            !r.is_custom(),
            r.preset_of() == preset,
            r.interval_of() == duration_of_millis(preset_interval_ms(preset) as u64),
            millis_of(r.interval_of()) == preset_interval_ms(preset),
            !r.reversed_of(),
    {
        SpinnerSpec {
            frames: SpinnerFrames::Preset(preset),
            interval: preset.default_interval(),
            reversed: false,
        }
    }

    pub fn dots() -> (r: Self)
        ensures
            r.frame_seq() == preset_frames(SpinnerPreset::Dots),
            !r.is_custom() && r.preset_of() == SpinnerPreset::Dots,
            r.interval_of() == duration_of_millis(80),
            millis_of(r.interval_of()) == 80,
            !r.reversed_of(),
    {
        Self::new(SpinnerPreset::Dots)
    }

    pub fn line() -> (r: Self)
        ensures
            r.frame_seq() == preset_frames(SpinnerPreset::Line),
            !r.is_custom() && r.preset_of() == SpinnerPreset::Line,
            r.interval_of() == duration_of_millis(120),
            millis_of(r.interval_of()) == 120,
            !r.reversed_of(),
    {
        Self::new(SpinnerPreset::Line)
    }

    pub fn pulse() -> (r: Self)
        ensures
            r.frame_seq() == preset_frames(SpinnerPreset::Pulse),
            !r.is_custom() && r.preset_of() == SpinnerPreset::Pulse,
            r.interval_of() == duration_of_millis(100),
            millis_of(r.interval_of()) == 100,
            !r.reversed_of(),
    {
        Self::new(SpinnerPreset::Pulse)
    }

    pub fn arrow() -> (r: Self)
        ensures
            r.frame_seq() == preset_frames(SpinnerPreset::Arrow),
            !r.is_custom() && r.preset_of() == SpinnerPreset::Arrow,
            r.interval_of() == duration_of_millis(90),
            millis_of(r.interval_of()) == 90,
            !r.reversed_of(),
    {
        Self::new(SpinnerPreset::Arrow)
    }

    pub fn bounce() -> (r: Self)
        ensures
            r.frame_seq() == preset_frames(SpinnerPreset::Bounce),
            !r.is_custom() && r.preset_of() == SpinnerPreset::Bounce,
            r.interval_of() == duration_of_millis(110),
            millis_of(r.interval_of()) == 110,
            !r.reversed_of(),
    {
        Self::new(SpinnerPreset::Bounce)
    }

    pub fn custom(frames: &'a [&'a str]) -> (r: Self)
        ensures
            r.frame_seq() == frames@,
            r.is_custom(),
            r.interval_of() == duration_of_millis(80),
            millis_of(r.interval_of()) == 80,
            !r.reversed_of(),
    {
        SpinnerSpec {
            frames: SpinnerFrames::Custom(frames),
            interval: duration_from_millis(80),
            reversed: false,
        }
    }

    pub fn with_interval(self, interval: Duration) -> (r: Self)
        ensures
            r.frame_seq() == self.frame_seq(),
            r.is_custom() == self.is_custom(),
            r.preset_of() == self.preset_of(),
            r.reversed_of() == self.reversed_of(),
            r.interval_of() == duration_of_millis(normalized_ms(millis_of(interval)) as u64),
            millis_of(r.interval_of()) == normalized_ms(millis_of(interval)),
    {
        let mut s = self;
        s.interval = normalize_interval(interval);
        s
    }

    pub fn with_reversed(self, reversed: bool) -> (r: Self)
        ensures
            r.frame_seq() == self.frame_seq(),
            r.is_custom() == self.is_custom(),
            r.preset_of() == self.preset_of(),
            r.interval_of() == self.interval_of(),
            r.reversed_of() == reversed,
    {
        let mut s = self;
        s.reversed = reversed;
        s
    }

    pub fn interval(&self) -> (r: Duration)
        ensures
            r == self.interval_of(),
    {
        self.interval
    }

    pub fn is_reversed(&self) -> (r: bool)
        ensures
            r == self.reversed_of(),
    {
        self.reversed
    }

    pub fn label(&self) -> (r: &'static str)
        ensures
            r == (if self.is_custom() { "custom" } else { preset_label(self.preset_of()) }),
    {
        match &self.frames {
            SpinnerFrames::Preset(preset) => preset.label(),
            SpinnerFrames::Custom(_) => "custom",
        }
    }

    pub fn frames(&self) -> (r: &'a [&'a str])
        ensures
            r@ == self.frame_seq(),
    {
        self.frames.as_slice()
    }
}

/// The frame index shown for a counter value over `len` frames.
pub open spec fn frame_index(frame: int, len: int, reversed: bool) -> int {
    if reversed { len - 1 - frame % len } else { frame % len }
}

/// Counter after `advance` adds `delta` milliseconds to `elapsed` at a given interval.
pub open spec fn advanced_frame(frame: int, elapsed: int, delta: int, interval: int, len: int) -> int {
    let steps = (elapsed + delta) / interval;
    if steps > 0 { (frame + (steps as usize) as int % len) % len } else { frame }
}


/// With the frame in range and the step count within `usize`, the advanced
/// frame is the frame plus the steps, around the frame count.
proof fn lemma_advanced_frame_mod(frame: int, elapsed: int, delta: int, interval: int, len: int)
    requires
        0 <= frame < len,
        0 <= elapsed,
        0 <= delta,
        0 < interval,
        (elapsed + delta) / interval <= usize::MAX,
    ensures
        advanced_frame(frame, elapsed, delta, interval, len) == (frame + ((elapsed + delta) / interval) % len) % len,
{
    let steps = (elapsed + delta) / interval;
    assert(steps >= 0) by (nonlinear_arith)
        requires
            elapsed + delta >= 0,
            interval > 0,
            steps == (elapsed + delta) / interval,
    ;
    assert((steps as usize) as int == steps);
    if steps == 0 {
        vstd::arithmetic::div_mod::lemma_small_mod(frame as nat, len as nat);
        assert(0int % len == 0) by {
            vstd::arithmetic::div_mod::lemma_small_mod(0nat, len as nat);
        }
    }
}

/// Two advances by `d1` and then `d2` milliseconds leave the spinner where
/// one advance by their sum does: the same frame and the same remainder
/// towards the next step (for step counts within `usize`).
pub proof fn lemma_advance_twice(frame: int, elapsed: int, d1: int, d2: int, interval: int, len: int)
    requires
        0 <= frame < len,
        0 <= elapsed < interval,
        0 <= d1,
        0 <= d2,
        (elapsed + d1 + d2) / interval <= usize::MAX,
    ensures
        ({
            let f1 = advanced_frame(frame, elapsed, d1, interval, len);
            let e1 = (elapsed + d1) % interval;
            &&& advanced_frame(f1, e1, d2, interval, len) == advanced_frame(frame, elapsed, d1 + d2, interval, len)
            &&& (e1 + d2) % interval == (elapsed + d1 + d2) % interval
        }),
{
    let x = elapsed + d1;
    let s1 = x / interval;
    let e1 = x % interval;
    vstd::arithmetic::div_mod::lemma_fundamental_div_mod(x, interval);
    let y = e1 + d2;
    let s2 = y / interval;
    let e2 = y % interval;
    vstd::arithmetic::div_mod::lemma_fundamental_div_mod(y, interval);
    assert(0 <= e1 < interval && 0 <= e2 < interval) by {
        vstd::arithmetic::div_mod::lemma_mod_bound(x, interval);
        vstd::arithmetic::div_mod::lemma_mod_bound(y, interval);
    }
    assert(x + d2 == (s1 + s2) * interval + e2) by (nonlinear_arith)
        requires
            x == interval * s1 + e1,
            y == interval * s2 + e2,
            y == e1 + d2,
    ;
    vstd::arithmetic::div_mod::lemma_fundamental_div_mod_converse(x + d2, interval, s1 + s2, e2);
    assert(s1 >= 0 && s2 >= 0) by (nonlinear_arith)
        requires
            x >= 0,
            y >= 0,
            interval > 0,
            s1 == x / interval,
            s2 == y / interval,
    ;
    assert(s1 <= usize::MAX && s2 <= usize::MAX);
    lemma_advanced_frame_mod(frame, elapsed, d1, interval, len);
    let f1 = advanced_frame(frame, elapsed, d1, interval, len);
    assert(0 <= f1 < len) by {
        vstd::arithmetic::div_mod::lemma_mod_bound(frame + s1 % len, len);
    }
    lemma_advanced_frame_mod(f1, e1, d2, interval, len);
    lemma_advanced_frame_mod(frame, elapsed, d1 + d2, interval, len);
    // Both frames are (frame + s1 + s2) % len.
    let m1 = s1 % len;
    let m12 = (s1 + s2) % len;
    vstd::arithmetic::div_mod::lemma_mod_bound(s1, len);
    vstd::arithmetic::div_mod::lemma_mod_bound(s1 + s2, len);
    vstd::arithmetic::div_mod::lemma_small_mod(m1 as nat, len as nat);
    vstd::arithmetic::div_mod::lemma_small_mod(m12 as nat, len as nat);
    vstd::arithmetic::div_mod::lemma_add_mod_noop(frame + m1, s2, len);
    vstd::arithmetic::div_mod::lemma_add_mod_noop(frame + s2, s1, len);
    vstd::arithmetic::div_mod::lemma_add_mod_noop(frame + s2, m1, len);
    vstd::arithmetic::div_mod::lemma_add_mod_noop(frame, s1 + s2, len);
    vstd::arithmetic::div_mod::lemma_add_mod_noop(frame, m12, len);
    assert(frame + m1 + s2 == frame + s2 + m1);
    assert(frame + s2 + s1 == frame + (s1 + s2));
}

impl SpinnerState {
    /// The frame counter.
    pub closed spec fn frame_of(&self) -> int {
        self.frame as int
    }

    /// Milliseconds accumulated towards the next step.
    pub closed spec fn elapsed_of(&self) -> int {
        self.elapsed_ms as int
    }

    /// Bounds every reachable state keeps.
    pub closed spec fn wf(&self) -> bool {
        &&& self.frame <= isize::MAX as usize
        &&& self.elapsed_ms <= max_duration_millis()
    }

    pub fn new() -> (r: Self)
        ensures
            r.wf(),
            r.frame_of() == 0,
            r.elapsed_of() == 0,
    {
        SpinnerState { frame: 0, elapsed_ms: 0 }
    }

    pub fn tick(&mut self, spinner: &SpinnerSpec<'_>)
        requires
            old(self).wf(),
            spinner.frame_seq().len() <= isize::MAX,
        ensures
            final(self).wf(),
            final(self).elapsed_of() == old(self).elapsed_of(),
            final(self).frame_of() == if spinner.frame_seq().len() == 0 {
                old(self).frame_of()
            } else {
                (old(self).frame_of() + 1) % (spinner.frame_seq().len() as int)
            },
    {
        let len = spinner.frames().len();
        if len == 0 {
            return;
        }
        self.frame = (self.frame + 1) % len;
    }

    pub fn advance(&mut self, spinner: &SpinnerSpec<'_>, delta: Duration)
        requires
            old(self).wf(),
            spinner.frame_seq().len() <= isize::MAX,
        ensures
            final(self).wf(),
            ({
                let len = spinner.frame_seq().len() as int;
                let interval = if millis_of(spinner.interval_of()) < 1 { 1 } else { millis_of(spinner.interval_of()) as int };
                let total = old(self).elapsed_of() + millis_of(delta);
                if len == 0 {
                    *final(self) == *old(self)
                } else {
                    &&& final(self).elapsed_of() == total % interval
                    &&& final(self).frame_of() == advanced_frame(old(self).frame_of(), old(self).elapsed_of(), millis_of(delta) as int, interval, len)
                }
            }),
    {
        let len = spinner.frames().len();
        if len == 0 {
            return;
        }
        let ms = duration_as_millis(spinner.interval());
        let interval_ms = if ms < 1 { 1 } else { ms };
        let d = duration_as_millis(delta);
        self.elapsed_ms = self.elapsed_ms + d;
        let steps = self.elapsed_ms / interval_ms;
        self.elapsed_ms = self.elapsed_ms % interval_ms;
        if steps > 0 {
            self.frame = (self.frame + (steps as usize % len)) % len;
        }
    }

    pub fn reset(&mut self)
        ensures
            final(self).wf(),
            final(self).frame_of() == 0,
            final(self).elapsed_of() == 0,
    {
        self.frame = 0;
        self.elapsed_ms = 0;
    }

    pub fn current_frame<'a>(&self, spinner: &'a SpinnerSpec<'a>) -> (r: &'a str)
        ensures
            r == if spinner.frame_seq().len() == 0 {
                ""
            } else {
                spinner.frame_seq()[frame_index(self.frame_of(), spinner.frame_seq().len() as int, spinner.reversed_of())]
            },
    {
        let frames = spinner.frames();
        if frames.len() == 0 {
            return "";
        }
        let idx = if spinner.is_reversed() {
            frames.len() - 1 - (self.frame % frames.len())
        } else {
            self.frame % frames.len()
        };
        frames[idx]
    }
}

impl Default for SpinnerState {
    fn default() -> (r: Self)
        ensures
            r.wf(),
            r.frame_of() == 0,
            r.elapsed_of() == 0,
    {
        SpinnerState::new()
    }
}

} // verus!
