//! What the knobs, the fader and the meters of the front panel show and do.
//!
//! Drawing is left to the user interface; this module works out what a touch
//! changes, which lamps are lit and in what colour.
use crate::arith::{
    cos_is, difference_is, exp10_is, factor, factor_is, log10_is, mac, mac_is, of_count_is,
    product_is, quotient_is, round_is, sum_is, to_int_is, Arith, DECADE_DB, TAU,
};
use crate::bits::{
    at_least, below, clamp, clamped, ge, lesser, lt, min, neg, negated, not_a_number, rank, HALF,
    ONE, TWO, ZERO,
};
use crate::number::{
    between_is_finite, constants_round, converts, counts, counts_are_exact, dyadic,
    dyadics_are_numbers, exact_results_are_hit, factor_up_to_one_shrinks, faithful, finite, integer,
    integers_are_numbers, levels_are_powers_of_ten, octaves_down, one, product_with_one,
    product_with_zero, raises_ten, rounds, rounds_above, rounds_below, rounds_scales, same,
    small_quotients_are_finite, units, units_follow_the_order, units_of_decades, units_of_negated,
    units_of_one, whole, whole_numbers_are_numbers, OCTAVE,
};
use vstd::arithmetic::power2::lemma2_to64;
use vstd::prelude::*;
use vstd::string::*;

verus! {

/// Lower end of the scale, -60 dB; a fader down there is silent.
pub const BOT_DB: u32 = 0xc270_0000;

/// Length of the scale, from -60 to +12 dB.
pub const DB_RANGE: u32 = 0x4290_0000;

/// Up to a gain of 1e-4 the lower end of the scale is shown.
pub const SILENT_GAIN: u32 = 0x38d1_b717;

/// `r` is a result of `20 * log10(g)`.
pub open spec fn level_is<F: Arith>(g: u32, r: u32) -> bool {
    exists|l: u32| #[trigger] log10_is::<F>(g, l) && product_is::<F>(DECADE_DB, l, r)
}

/// `20 * log10(g)`
pub fn level<F: Arith>(g: u32) -> (r: u32)
    ensures
        level_is::<F>(g, r),
{
    let l: u32 = F::log10(g);
    assert(log10_is::<F>(g, l));
    F::times(DECADE_DB, l)
}

/// `r` is a result of a gain in decibels, the lower end of the scale where it is
/// next to nothing.
pub open spec fn gain_to_db_is<F: Arith>(g: u32, r: u32) -> bool {
    if below(SILENT_GAIN, g) {
        level_is::<F>(g, r)
    } else {
        r == BOT_DB
    }
}

/// A gain in decibels.
pub fn gain_to_db<F: Arith>(g: u32) -> (r: u32)
    ensures
        gain_to_db_is::<F>(g, r),
{
    if lt(SILENT_GAIN, g) {
        level::<F>(g)
    } else {
        BOT_DB
    }
}

/// `r` is a result of the gain of a level in decibels, nothing at the lower end of
/// the scale.
pub open spec fn db_to_gain_is<F: Arith>(db: u32, r: u32) -> bool {
    if at_least(BOT_DB, db) {
        r == ZERO
    } else {
        factor_is::<F>(db, r)
    }
}

/// The gain of a level in decibels.
pub fn db_to_gain<F: Arith>(db: u32) -> (r: u32)
    ensures
        db_to_gain_is::<F>(db, r),
{
    if ge(BOT_DB, db) {
        ZERO
    } else {
        factor::<F>(db)
    }
}

/// `r` is a result of the place of a level on the scale, 0 to 1.
pub open spec fn db_to_frac_is<F: Arith>(db: u32, r: u32) -> bool {
    exists|up: u32, raw: u32| #[trigger]
        difference_is::<F>(db, BOT_DB, up) && #[trigger] quotient_is::<F>(up, DB_RANGE, raw) && r
            == clamped(raw, ZERO, ONE)
}

/// The place of a level on the scale.
pub fn db_to_frac<F: Arith>(db: u32) -> (r: u32)
    ensures
        db_to_frac_is::<F>(db, r),
{
    let up: u32 = F::minus(db, BOT_DB);
    let raw: u32 = F::over(up, DB_RANGE);
    assert(difference_is::<F>(db, BOT_DB, up) && quotient_is::<F>(up, DB_RANGE, raw));
    clamp(raw, ZERO, ONE)
}

/// How a level is written, given its digits: a sign for what is above zero, and
/// infinity at the lower end of the scale.
pub fn fmt_db(db: u32, digits: &str) -> (r: String)
    ensures
        r@ == if at_least(BOT_DB, db) {
            "-∞"@
        } else if below(ZERO, db) {
            "+"@ + digits@
        } else {
            digits@
        },
{
    if ge(BOT_DB, db) {
        "-∞".to_owned()
    } else if lt(ZERO, db) {
        "+".to_owned().concat(digits)
    } else {
        digits.to_owned()
    }
}

/// How a tick of the scale is written, given its digits.
pub fn tick_label(db: i32, digits: &str) -> (r: String)
    ensures
        r@ == if db > 0 {
            "+"@ + digits@
        } else {
            digits@
        },
{
    if db > 0 {
        "+".to_owned().concat(digits)
    } else {
        digits.to_owned()
    }
}

/// A place on the scale is always between its ends.
pub proof fn places_are_on_the_scale<F: Arith>(db: u32, r: u32)
    requires
        db_to_frac_is::<F>(db, r),
        !crate::bits::not_a_number(r),
    ensures
        at_least(r, ZERO),
        at_least(ONE, r),
{
}

/// A colour.
#[derive(Clone, Copy, PartialEq, Eq, Debug, Structural)]
pub struct Rgb {
    /// Red.
    pub r: u8,
    /// Green.
    pub g: u8,
    /// Blue.
    pub b: u8,
}

/// `n` pulled into a byte.
pub open spec fn byte(n: i32) -> u8 {
    if n < 0 {
        0
    } else if n > 255 {
        255
    } else {
        n as u8
    }
}

/// `r` is a result of cutting `x` down to a byte.
pub open spec fn to_byte_is<F: Arith>(x: u32, r: u8) -> bool {
    exists|n: i32| #[trigger] to_int_is::<F>(x, n) && r == byte(n)
}

/// Cuts a number down to a byte.
pub fn to_byte<F: Arith>(x: u32) -> (r: u8)
    ensures
        to_byte_is::<F>(x, r),
{
    let n: i32 = F::to_int(x);
    assert(to_int_is::<F>(x, n));
    if n < 0 {
        0
    } else if n > 255 {
        255
    } else {
        n as u8
    }
}

/// `r` is a result of `a + (b - a) * t`, cut down to a byte.
pub open spec fn mixed_is<F: Arith>(a: u8, b: u8, t: u32, r: u8) -> bool {
    exists|x: u32, y: u32, gap: u32, m: u32|
        #![trigger of_count_is::<F>(a as usize, x), of_count_is::<F>(b as usize, y), difference_is::<F>(y, x, gap), mac_is::<F>(x, gap, t, m)]
        of_count_is::<F>(a as usize, x) && of_count_is::<F>(b as usize, y) && difference_is::<F>(
            y,
            x,
            gap,
        ) && mac_is::<F>(x, gap, t, m) && to_byte_is::<F>(m, r)
}

/// `a + (b - a) * t`, cut down to a byte.
pub fn mixed<F: Arith>(a: u8, b: u8, t: u32) -> (r: u8)
    ensures
        mixed_is::<F>(a, b, t, r),
{
    let x: u32 = F::of_count(a as usize);
    let y: u32 = F::of_count(b as usize);
    let gap: u32 = F::minus(y, x);
    let m: u32 = mac::<F>(x, gap, t);
    assert(of_count_is::<F>(a as usize, x) && of_count_is::<F>(b as usize, y) && difference_is::<
        F,
    >(y, x, gap) && mac_is::<F>(x, gap, t, m));
    to_byte::<F>(m)
}

/// `c` is a result of the colour `t` of the way from `a` to `b`.
pub open spec fn lerp_color_is<F: Arith>(a: Rgb, b: Rgb, t: u32, c: Rgb) -> bool {
    let at = clamped(t, ZERO, ONE);
    mixed_is::<F>(a.r, b.r, at, c.r) && mixed_is::<F>(a.g, b.g, at, c.g) && mixed_is::<F>(
        a.b,
        b.b,
        at,
        c.b,
    )
}

/// The colour `t` of the way from `a` to `b`.
pub fn lerp_color<F: Arith>(a: Rgb, b: Rgb, t: u32) -> (c: Rgb)
    ensures
        lerp_color_is::<F>(a, b, t, c),
{
    let at: u32 = clamp(t, ZERO, ONE);
    Rgb {
        r: mixed::<F>(a.r, b.r, at),
        g: mixed::<F>(a.g, b.g, at),
        b: mixed::<F>(a.b, b.b, at),
    }
}

/// Pixels of a drag that turn a knob from end to end, 150.
pub const KNOB_TRAVEL: u32 = 0x4316_0000;

/// A lamp is lit a trifle early, by 0.001.
pub const LAMP_SLACK: u32 = 0x3a83_126f;

/// Lamps around a knob.
pub const N_TICKS: usize = 25;

/// `r` is a result of turning a knob from `value` by a drag of `dy` downwards:
/// `value - dy / 150 * (max - min)`, pulled into its range.
pub open spec fn turned_is<F: Arith>(value: u32, dy: u32, min_v: u32, max_v: u32, r: u32) -> bool {
    exists|part: u32, range: u32, raw: u32|
        #![trigger quotient_is::<F>(negated(dy), KNOB_TRAVEL, part), difference_is::<F>(max_v, min_v, range), mac_is::<F>(value, part, range, raw)]
        quotient_is::<F>(negated(dy), KNOB_TRAVEL, part) && difference_is::<F>(max_v, min_v, range)
            && mac_is::<F>(value, part, range, raw) && r == clamped(raw, min_v, max_v)
}

/// What a hand does to a knob.
#[derive(Clone, Copy)]
pub struct Grip {
    /// How far it drags, downwards, if it does.
    pub drag: Option<u32>,
    /// Whether it clicks twice.
    pub reset: bool,
}

/// `r` is a result of what becomes of `value` in the hand: the default on a double
/// click, and otherwise what a drag turns it to.
pub open spec fn gripped_is<F: Arith>(
    value: u32,
    grip: Grip,
    default_v: u32,
    min_v: u32,
    max_v: u32,
    r: u32,
) -> bool {
    if grip.reset {
        r == default_v
    } else {
        match grip.drag {
            None => r == value,
            Some(dy) => turned_is::<F>(value, dy, min_v, max_v, r),
        }
    }
}

/// Turns a knob: by a drag, and to its default on a double click, in that order.
/// One that is not enabled stands still. Returns the value and whether it changed.
pub fn turn<F: Arith>(
    value: u32,
    grip: Grip,
    enabled: bool,
    default_v: u32,
    min_v: u32,
    max_v: u32,
) -> (r: (u32, bool))
    requires
        enabled && grip.drag is Some ==> at_least(max_v, min_v),
    ensures
        r.1 == (r.0 != value),
        if enabled {
            gripped_is::<F>(value, grip, default_v, min_v, max_v, r.0)
        } else {
            r.0 == value
        },
{
    if !enabled {
        return (value, false);
    }
    let mut v: u32 = value;
    if let Some(dy) = grip.drag {
        let part: u32 = F::over(neg(dy), KNOB_TRAVEL);
        let range: u32 = F::minus(max_v, min_v);
        let raw: u32 = mac::<F>(value, part, range);
        assert(quotient_is::<F>(negated(dy), KNOB_TRAVEL, part) && difference_is::<F>(
            max_v,
            min_v,
            range,
        ) && mac_is::<F>(value, part, range, raw));
        v = clamp(raw, min_v, max_v);
    }
    if grip.reset {
        v = default_v;
    }
    (v, v != value)
}

/// `r` is a result of where a knob stands between its ends, 0 to 1.
pub open spec fn stand_is<F: Arith>(value: u32, min_v: u32, max_v: u32, r: u32) -> bool {
    exists|up: u32, range: u32, raw: u32|
        #![trigger difference_is::<F>(value, min_v, up), difference_is::<F>(max_v, min_v, range), quotient_is::<F>(up, range, raw)]
        difference_is::<F>(value, min_v, up) && difference_is::<F>(max_v, min_v, range)
            && quotient_is::<F>(up, range, raw) && r == clamped(raw, ZERO, ONE)
}

/// Where a knob stands between its ends.
pub fn stand<F: Arith>(value: u32, min_v: u32, max_v: u32) -> (r: u32)
    ensures
        stand_is::<F>(value, min_v, max_v, r),
{
    let up: u32 = F::minus(value, min_v);
    let range: u32 = F::minus(max_v, min_v);
    let raw: u32 = F::over(up, range);
    assert(difference_is::<F>(value, min_v, up) && difference_is::<F>(max_v, min_v, range)
        && quotient_is::<F>(up, range, raw));
    clamp(raw, ZERO, ONE)
}

/// `r` is a result of whether lamp `i` of a knob is lit: it stands at
/// `i / 24` and the knob is there or past it.
pub open spec fn lit_is<F: Arith>(i: usize, frac: u32, enabled: bool, r: bool) -> bool {
    exists|n: u32, last: u32, place: u32, reach: u32|
        #![trigger of_count_is::<F>(i, n), of_count_is::<F>((N_TICKS - 1) as usize, last), quotient_is::<F>(n, last, place), sum_is::<F>(frac, LAMP_SLACK, reach)]
        of_count_is::<F>(i, n) && of_count_is::<F>((N_TICKS - 1) as usize, last) && quotient_is::<
            F,
        >(n, last, place) && sum_is::<F>(frac, LAMP_SLACK, reach) && r == (enabled && at_least(
            reach,
            place,
        ))
}

/// Whether lamp `i` of a knob is lit.
pub fn lit<F: Arith>(i: usize, frac: u32, enabled: bool) -> (r: bool)
    ensures
        lit_is::<F>(i, frac, enabled, r),
{
    let n: u32 = F::of_count(i);
    let last: u32 = F::of_count(N_TICKS - 1);
    let place: u32 = F::over(n, last);
    let reach: u32 = F::plus(frac, LAMP_SLACK);
    assert(of_count_is::<F>(i, n) && of_count_is::<F>((N_TICKS - 1) as usize, last) && quotient_is::<
        F,
    >(n, last, place) && sum_is::<F>(frac, LAMP_SLACK, reach));
    enabled && ge(reach, place)
}

/// What a hand does to the fader.
#[derive(Clone, Copy)]
pub enum Touch {
    /// Lets it be.
    Idle,
    /// Puts it back to 0 dB.
    Reset,
    /// Puts it at a height on the screen.
    At(u32),
}

/// The fader after a touch.
pub struct Fader {
    /// The gain.
    pub gain: u32,
    /// Its level in decibels.
    pub db: u32,
    /// Whether the gain changed.
    pub changed: bool,
}

/// `r` is a result of the level at height `y` of a fader from `top` over `h`
/// pixels: `-60 + (1 - (y - top) / h) * 72`, within the scale.
pub open spec fn height_is<F: Arith>(y: u32, top: u32, h: u32, r: u32) -> bool {
    exists|down: u32, part: u32, rest: u32|
        #![trigger difference_is::<F>(y, top, down), quotient_is::<F>(down, h, part), difference_is::<F>(ONE, part, rest)]
        difference_is::<F>(y, top, down) && quotient_is::<F>(down, h, part) && difference_is::<F>(
            ONE,
            part,
            rest,
        ) && mac_is::<F>(BOT_DB, clamped(rest, ZERO, ONE), DB_RANGE, r)
}

/// `r` is a result of moving a fader that stands at `gain`.
pub open spec fn slid_is<F: Arith>(gain: u32, touch: Touch, top: u32, h: u32, r: Fader) -> bool {
    &&& r.changed == (r.gain != gain)
    &&& match touch {
        Touch::Idle => r.gain == gain && gain_to_db_is::<F>(gain, r.db),
        Touch::Reset => r.gain == ONE && r.db == ZERO,
        Touch::At(y) => height_is::<F>(y, top, h, r.db) && db_to_gain_is::<F>(r.db, r.gain),
    }
}

/// Moves the fader.
pub fn slide<F: Arith>(gain: u32, touch: Touch, top: u32, h: u32) -> (r: Fader)
    ensures
        slid_is::<F>(gain, touch, top, h, r),
{
    match touch {
        Touch::Idle => Fader { gain, db: gain_to_db::<F>(gain), changed: false },
        Touch::Reset => Fader { gain: ONE, db: ZERO, changed: gain != ONE },
        Touch::At(y) => {
            let down: u32 = F::minus(y, top);
            let part: u32 = F::over(down, h);
            let rest: u32 = F::minus(ONE, part);
            let db: u32 = mac::<F>(BOT_DB, clamp(rest, ZERO, ONE), DB_RANGE);
            assert(difference_is::<F>(y, top, down) && quotient_is::<F>(down, h, part)
                && difference_is::<F>(ONE, part, rest));
            let moved: u32 = db_to_gain::<F>(db);
            Fader { gain: moved, db, changed: moved != gain }
        },
    }
}

/// A hundred.
pub const HUNDRED: u32 = 0x42c8_0000;

/// `r` is a result of a gain in percent, rounded.
pub open spec fn percent_is<F: Arith>(gain: u32, r: i32) -> bool {
    exists|p: u32, whole: u32| #[trigger]
        product_is::<F>(gain, HUNDRED, p) && #[trigger] round_is::<F>(p, whole) && to_int_is::<F>(
            whole,
            r,
        )
}

/// A gain in percent.
pub fn percent<F: Arith>(gain: u32) -> (r: i32)
    ensures
        percent_is::<F>(gain, r),
{
    let p: u32 = F::times(gain, HUNDRED);
    let whole: u32 = F::round(p);
    assert(product_is::<F>(gain, HUNDRED, p) && round_is::<F>(p, whole));
    F::to_int(whole)
}

/// The colour of a level that is safe.
#[verifier::allow_in_spec]
pub fn green() -> Rgb
    returns
        (Rgb { r: 34, g: 197, b: 94 }),
{
    Rgb { r: 34, g: 197, b: 94 }
}

/// The colour of a level that is high.
#[verifier::allow_in_spec]
pub fn yellow() -> Rgb
    returns
        (Rgb { r: 234, g: 179, b: 8 }),
{
    Rgb { r: 234, g: 179, b: 8 }
}

/// The colour of a level that is too high.
#[verifier::allow_in_spec]
pub fn red() -> Rgb
    returns
        (Rgb { r: 239, g: 68, b: 68 }),
{
    Rgb { r: 239, g: 68, b: 68 }
}

/// Up to 0.62 the meter is green.
pub const GREEN_TOP: u32 = 0x3f1e_b852;

/// From 0.84 on the meter turns red.
pub const YELLOW_TOP: u32 = 0x3f57_0a3d;

/// From green to yellow, 0.22.
pub const YELLOW_SPAN: u32 = 0x3e61_47ae;

/// From yellow to red, 0.16.
pub const RED_SPAN: u32 = 0x3e23_d70a;

/// `c` is a result of the colour `(f - from) / over` of the way from `a` to `b`.
pub open spec fn shaded_is<F: Arith>(
    a: Rgb,
    b: Rgb,
    f: u32,
    from: u32,
    over: u32,
    c: Rgb,
) -> bool {
    exists|up: u32, t: u32| #[trigger]
        difference_is::<F>(f, from, up) && #[trigger] quotient_is::<F>(up, over, t)
            && lerp_color_is::<F>(a, b, t, c)
}

/// The colour `(f - from) / over` of the way from `a` to `b`.
fn shaded<F: Arith>(a: Rgb, b: Rgb, f: u32, from: u32, over: u32) -> (c: Rgb)
    ensures
        shaded_is::<F>(a, b, f, from, over, c),
{
    let up: u32 = F::minus(f, from);
    let t: u32 = F::over(up, over);
    assert(difference_is::<F>(f, from, up) && quotient_is::<F>(up, over, t));
    lerp_color::<F>(a, b, t)
}

/// `c` is a result of the colour of the meter at the place `f`.
pub open spec fn meter_color_is<F: Arith>(f: u32, c: Rgb) -> bool {
    if below(f, GREEN_TOP) {
        c == green()
    } else if below(f, YELLOW_TOP) {
        shaded_is::<F>(green(), yellow(), f, GREEN_TOP, YELLOW_SPAN, c)
    } else {
        shaded_is::<F>(yellow(), red(), f, YELLOW_TOP, RED_SPAN, c)
    }
}

/// The colour of the meter at the place `f`.
pub fn meter_color<F: Arith>(f: u32) -> (c: Rgb)
    ensures
        meter_color_is::<F>(f, c),
{
    if lt(f, GREEN_TOP) {
        green()
    } else if lt(f, YELLOW_TOP) {
        shaded::<F>(green(), yellow(), f, GREEN_TOP, YELLOW_SPAN)
    } else {
        shaded::<F>(yellow(), red(), f, YELLOW_TOP, RED_SPAN)
    }
}

/// A slice of the meter, measured in pixels from its bottom.
pub struct Slice {
    /// Where it starts.
    pub from: u32,
    /// Where it ends.
    pub to: u32,
    /// Its colour.
    pub color: Rgb,
}

/// Slices of the meter.
pub const SLICES: usize = 32;

/// `s` is a result of slice `i` of a meter of `h` pixels that is filled up to
/// `fill`.
pub open spec fn slice_is<F: Arith>(i: usize, h: u32, fill: u32, s: Slice) -> bool {
    exists|f0: u32, f1: u32, end: u32|
        #![trigger part_is::<F>(i, f0), part_is::<F>((i + 1) as usize, f1), product_is::<F>(f1, h, end)]
        part_is::<F>(i, f0) && part_is::<F>((i + 1) as usize, f1) && product_is::<F>(f0, h, s.from)
            && !below(fill, s.from) && product_is::<F>(f1, h, end) && s.to == lesser(end, fill)
            && meter_color_is::<F>(f0, s.color)
}

/// `f` is a result of `i / 32`.
pub open spec fn part_is<F: Arith>(i: usize, f: u32) -> bool {
    exists|n: u32, all: u32| #[trigger]
        of_count_is::<F>(i, n) && #[trigger] of_count_is::<F>(SLICES, all) && quotient_is::<F>(
            n,
            all,
            f,
        )
}

/// `i / 32`
fn part<F: Arith>(i: usize) -> (f: u32)
    ensures
        part_is::<F>(i, f),
{
    let n: u32 = F::of_count(i);
    let all: u32 = F::of_count(SLICES);
    assert(of_count_is::<F>(i, n) && of_count_is::<F>(SLICES, all));
    F::over(n, all)
}

/// `reached` is a result of whether slice `i` starts within what is filled.
pub open spec fn reached_is<F: Arith>(i: usize, h: u32, fill: u32, reached: bool) -> bool {
    exists|f0: u32, from: u32| #[trigger]
        part_is::<F>(i, f0) && #[trigger] product_is::<F>(f0, h, from) && reached == !below(
            fill,
            from,
        )
}

/// `slices` are a result of the slices of a meter of `h` pixels at the place
/// `frac`: none at zero; otherwise one after the other from the bottom, as long
/// as they start within what is filled.
pub open spec fn slices_are<F: Arith>(frac: u32, h: u32, slices: Seq<Slice>) -> bool {
    if !below(ZERO, frac) {
        slices.len() == 0
    } else {
        exists|fill: u32| #[trigger]
            product_is::<F>(h, frac, fill) && slices.len() <= SLICES && (forall|i: int|
                0 <= i < slices.len() ==> slice_is::<F>(
                    i as usize,
                    h,
                    fill,
                    #[trigger] slices[i],
                )) && (slices.len() < SLICES ==> reached_is::<F>(
                slices.len() as usize,
                h,
                fill,
                false,
            ))
    }
}

/// The slices of a meter.
pub fn slices<F: Arith>(frac: u32, h: u32) -> (r: Vec<Slice>)
    ensures
        slices_are::<F>(frac, h, r@),
{
    let mut r: Vec<Slice> = Vec::new();
    if !lt(ZERO, frac) {
        return r;
    }
    let fill: u32 = F::times(h, frac);
    assert(product_is::<F>(h, frac, fill));
    let mut i: usize = 0;
    while i < SLICES
        invariant
            i <= SLICES,
            r@.len() == i,
            forall|k: int|
                0 <= k < i ==> slice_is::<F>(k as usize, h, fill, #[trigger] r@[k]),
        ensures
            r@.len() == i,
            i <= SLICES,
            i < SLICES ==> reached_is::<F>(i, h, fill, false),
            forall|k: int|
                0 <= k < i ==> slice_is::<F>(k as usize, h, fill, #[trigger] r@[k]),
        decreases SLICES - i,
    {
        let f0: u32 = part::<F>(i);
        let from: u32 = F::times(f0, h);
        if lt(fill, from) {
            assert(part_is::<F>(i, f0) && product_is::<F>(f0, h, from));
            break;
        }
        let f1: u32 = part::<F>(i + 1);
        let end: u32 = F::times(f1, h);
        let s = Slice { from, to: min(end, fill), color: meter_color::<F>(f0) };
        assert(part_is::<F>(i, f0) && part_is::<F>((i + 1) as usize, f1) && product_is::<F>(
            f1,
            h,
            end,
        ));
        assert(slice_is::<F>(i, h, fill, s));
        r.push(s);
        i = i + 1;
    }
    r
}

/// The colour at the top of the big button.
#[verifier::allow_in_spec]
pub fn purple() -> Rgb
    returns
        (Rgb { r: 109, g: 94, b: 252 }),
{
    Rgb { r: 109, g: 94, b: 252 }
}

/// The colour at its bottom.
#[verifier::allow_in_spec]
pub fn magenta() -> Rgb
    returns
        (Rgb { r: 236, g: 72, b: 153 }),
{
    Rgb { r: 236, g: 72, b: 153 }
}

/// Segments of the ring around the big button.
pub const RING_SEGMENTS: usize = 64;

/// `a` is a result of the angle at which segment `i` of the ring starts.
pub open spec fn angle_is<F: Arith>(i: usize, a: u32) -> bool {
    exists|n: u32, all: u32, turns: u32| #[trigger]
        of_count_is::<F>(i, n) && #[trigger] of_count_is::<F>(RING_SEGMENTS, all)
            && #[trigger] product_is::<F>(TAU, n, turns) && quotient_is::<F>(turns, all, a)
}

/// The angle at which segment `i` of the ring starts.
pub fn angle<F: Arith>(i: usize) -> (a: u32)
    ensures
        angle_is::<F>(i, a),
{
    let n: u32 = F::of_count(i);
    let all: u32 = F::of_count(RING_SEGMENTS);
    let turns: u32 = F::times(TAU, n);
    assert(of_count_is::<F>(i, n) && of_count_is::<F>(RING_SEGMENTS, all) && product_is::<F>(
        TAU,
        n,
        turns,
    ));
    F::over(turns, all)
}

/// `c` is a result of the colour of a segment from angle `a0` to `a1`: from top to
/// bottom and back, `(1 - cos((a0 + a1) / 2)) / 2` of the way.
pub open spec fn ring_color_is<F: Arith>(a0: u32, a1: u32, c: Rgb) -> bool {
    exists|both: u32, mid: u32, x: u32, rest: u32, t: u32|
        #![trigger sum_is::<F>(a0, a1, both), quotient_is::<F>(both, TWO, mid), cos_is::<F>(mid, x), difference_is::<F>(ONE, x, rest), quotient_is::<F>(rest, TWO, t)]
        sum_is::<F>(a0, a1, both) && quotient_is::<F>(both, TWO, mid) && cos_is::<F>(mid, x)
            && difference_is::<F>(ONE, x, rest) && quotient_is::<F>(rest, TWO, t)
            && lerp_color_is::<F>(purple(), magenta(), t, c)
}

/// The colour of a segment of the ring.
pub fn ring_color<F: Arith>(a0: u32, a1: u32) -> (c: Rgb)
    ensures
        ring_color_is::<F>(a0, a1, c),
{
    let both: u32 = F::plus(a0, a1);
    let mid: u32 = F::over(both, TWO);
    let x: u32 = F::cos(mid);
    let rest: u32 = F::minus(ONE, x);
    let t: u32 = F::over(rest, TWO);
    assert(sum_is::<F>(a0, a1, both) && quotient_is::<F>(both, TWO, mid) && cos_is::<F>(mid, x)
        && difference_is::<F>(ONE, x, rest) && quotient_is::<F>(rest, TWO, t));
    lerp_color::<F>(purple(), magenta(), t)
}

/// The scale goes from -60 dB over 72 dB.
proof fn scale_constants()
    ensures
        finite(BOT_DB) && units(BOT_DB) == -60 * one(),
        finite(DB_RANGE) && units(DB_RANGE) == 72 * one(),
{
    whole_numbers_are_numbers(60);
    whole_numbers_are_numbers(72);
    assert(negated(whole(60)) == BOT_DB && whole(72) == DB_RANGE) by {
        reveal_with_fuel(whole, 24);
    }
    units_of_negated(whole(60));
}

/// A whole number of decibels from -60 to 12 stands at its share of the scale, and what
/// is past an end stands there.
pub proof fn levels_stand_at_their_share<F: Arith>(db: u32, k: int, r: u32)
    requires
        faithful::<F>(),
        db_to_frac_is::<F>(db, r),
        finite(db) && units(db) == k * one(),
        -1000 <= k <= 1000,
    ensures
        finite(r) && 0 <= units(r) <= one(),
        -60 <= k <= 12 ==> exists|place: u32| #[trigger]
            rounds((k + 60) * one(), 72, place) && same(place, r),
        k <= -60 ==> units(r) == 0,
        k >= 12 ==> units(r) == one(),
{
    units_of_one();
    scale_constants();
    let (up, raw) = choose|up: u32, raw: u32| #[trigger]
        difference_is::<F>(db, BOT_DB, up) && #[trigger] quotient_is::<F>(up, DB_RANGE, raw) && r
            == clamped(raw, ZERO, ONE);
    integers_are_numbers(k + 60);
    assert(k * one() + 60 * one() == (k + 60) * one()) by (nonlinear_arith);
    exact_results_are_hit((k + 60) * one(), 1, up, integer(k + 60));
    small_quotients_are_finite::<F>(up, DB_RANGE, raw);
    let o = one();
    rounds_scales((k + 60) * o, 72, o, raw);
    units_follow_the_order(raw, ZERO);
    units_follow_the_order(raw, ONE);
    if k <= -60 {
        assert((k + 60) * o <= 0) by (nonlinear_arith)
            requires
                k <= -60,
                o > 0,
        ;
        rounds_below((k + 60) * o, 72, raw, ZERO);
    }
    if k >= -60 {
        assert((k + 60) * o >= 0) by (nonlinear_arith)
            requires
                k >= -60,
                o > 0,
        ;
        rounds_above((k + 60) * o, 72, raw, ZERO);
    }
    if k <= 12 {
        assert((k + 60) * o <= o * 72) by (nonlinear_arith)
            requires
                k <= 12,
                o > 0,
        ;
        rounds_below((k + 60) * o, 72, raw, ONE);
    }
    if k >= 12 {
        assert((k + 60) * o >= o * 72) by (nonlinear_arith)
            requires
                k >= 12,
                o > 0,
        ;
        rounds_above((k + 60) * o, 72, raw, ONE);
    }
}

/// A gain is shown as twenty times its decimal logarithm; one that is next to nothing is
/// at the lower end of the scale.
pub proof fn gains_are_shown_in_decibels<F: Arith>(g: u32, r: u32)
    requires
        faithful::<F>(),
        gain_to_db_is::<F>(g, r),
        finite(g),
        forall|l: u32| #[trigger] log10_is::<F>(g, l) ==> finite(l),
    ensures
        1_0000 * units(g) >= 2 * one() ==> exists|l: u32| #[trigger]
            log10_is::<F>(g, l) && rounds(20 * units(l), 1, r),
        units(g) <= 0 ==> units(r) == -60 * one(),
{
    units_of_one();
    units_of_decades();
    scale_constants();
    lemma2_to64();
    constants_round(SILENT_GAIN, 1, 1_0000, 113, 0x51b717, 16384);
    units_follow_the_order(g, SILENT_GAIN);
    units_follow_the_order(g, ZERO);
    units_follow_the_order(SILENT_GAIN, ZERO);
    let eighth = dyadic(1, 13);
    dyadics_are_numbers(1, 13);
    rounds_below(one(), 1_0000, SILENT_GAIN, eighth);
    if 1_0000 * units(g) >= 2 * one() {
        assert(below(SILENT_GAIN, g));
        let l = choose|l: u32| #[trigger] log10_is::<F>(g, l) && product_is::<F>(DECADE_DB, l, r);
        let (u, o) = (units(l), one());
        assert((20 * o) * u == (20 * u) * o) by (nonlinear_arith);
        rounds_scales(20 * u, 1, o, r);
    }
}

/// The level at a height of the fader is within the scale: its upper end at the top and
/// above, its lower end at the bottom and below, and the middle of the scale half way.
pub proof fn fader_spans_the_scale<F: Arith>(y: u32, top: u32, h: u32, r: u32)
    requires
        faithful::<F>(),
        height_is::<F>(y, top, h, r),
        finite(y) && finite(top) && finite(h),
        -0x10_0000 * one() <= units(y) <= 0x10_0000 * one(),
        -0x10_0000 * one() <= units(top) <= 0x10_0000 * one(),
        one() <= units(h),
    ensures
        finite(r) && -60 * one() <= units(r) <= 12 * one(),
        units(y) <= units(top) ==> units(r) == 12 * one(),
        units(y) >= units(top) + units(h) ==> units(r) == -60 * one(),
        2 * (units(y) - units(top)) == units(h) ==> units(r) == -24 * one(),
{
    units_of_one();
    scale_constants();
    let (down, part, rest) = choose|down: u32, part: u32, rest: u32|
        #![trigger difference_is::<F>(y, top, down), quotient_is::<F>(down, h, part), difference_is::<F>(ONE, part, rest)]
        difference_is::<F>(y, top, down) && quotient_is::<F>(down, h, part) && difference_is::<F>(
            ONE,
            part,
            rest,
        ) && mac_is::<F>(BOT_DB, clamped(rest, ZERO, ONE), DB_RANGE, r);
    let o = one();
    let gap = units(y) - units(top);
    integers_are_numbers(0x20_0000);
    integers_are_numbers(-0x20_0000);
    rounds_below(gap, 1, down, integer(0x20_0000));
    rounds_above(gap, 1, down, integer(-0x20_0000));
    between_is_finite(integer(-0x20_0000), down, integer(0x20_0000));
    small_quotients_are_finite::<F>(down, h, part);
    let left = o - units(part);
    integers_are_numbers(0x20_0001);
    integers_are_numbers(-0x20_0000);
    rounds_below(left, 1, rest, integer(0x20_0001));
    rounds_above(left, 1, rest, integer(-0x20_0000));
    between_is_finite(integer(-0x20_0000), rest, integer(0x20_0001));
    if gap <= 0 {
        rounds_below(gap, 1, down, ZERO);
        rounds_above(left, 1, rest, ONE);
    }
    if gap >= units(h) {
        rounds_above(gap, 1, down, h);
        let (d, u) = (units(down), units(h));
        assert(o * u <= d * o) by (nonlinear_arith)
            requires
                d >= u,
                o > 0,
        ;
        rounds_above(d * o, u, part, ONE);
        rounds_below(left, 1, rest, ZERO);
    }
    if 2 * gap == units(h) {
        units_follow_the_order(h, ONE);
        octaves_down(h, 1);
        lemma2_to64();
        let half = (h - 1 * OCTAVE) as u32;
        exact_results_are_hit(gap, 1, down, half);
        let (d, u, q) = (units(down), units(h), units(HALF));
        assert(q * u == d * o) by (nonlinear_arith)
            requires
                2 * q == o,
                2 * d == u,
        ;
        exact_results_are_hit(d * o, u, part, HALF);
        exact_results_are_hit(left, 1, rest, HALF);
    }
    let share = clamped(rest, ZERO, ONE);
    units_follow_the_order(rest, ZERO);
    units_follow_the_order(rest, ONE);
    units_follow_the_order(share, HALF);
    between_is_finite(ZERO, share, ONE);
    shares_of_the_scale::<F>(share, r);
}

/// A share of the scale is that much of 72 dB above its lower end.
proof fn shares_of_the_scale<F: Arith>(share: u32, r: u32)
    requires
        faithful::<F>(),
        mac_is::<F>(BOT_DB, share, DB_RANGE, r),
        finite(share) && 0 <= units(share) <= one(),
    ensures
        finite(r) && -60 * one() <= units(r) <= 12 * one(),
        units(share) == one() ==> units(r) == 12 * one(),
        units(share) == 0 ==> units(r) == -60 * one(),
        2 * units(share) == one() ==> units(r) == -24 * one(),
{
    units_of_one();
    scale_constants();
    let p = choose|p: u32| #[trigger]
        product_is::<F>(share, DB_RANGE, p) && sum_is::<F>(BOT_DB, p, r);
    let (u, o) = (units(share), one());
    factor_up_to_one_shrinks::<F>(DB_RANGE, share, p);
    integers_are_numbers(12);
    integers_are_numbers(-24);
    integers_are_numbers(36);
    let total = units(BOT_DB) + units(p);
    rounds_above(total, 1, r, BOT_DB);
    rounds_below(total, 1, r, integer(12));
    between_is_finite(BOT_DB, r, integer(12));
    if u == o {
        product_with_one::<F>(share, DB_RANGE, p);
        exact_results_are_hit(total, 1, r, integer(12));
    }
    if u == 0 {
        product_with_zero::<F>(share, DB_RANGE, p);
        exact_results_are_hit(total, 1, r, BOT_DB);
    }
    if 2 * u == o {
        assert((36 * o) * o == u * (72 * o)) by (nonlinear_arith)
            requires
                2 * u == o,
        ;
        exact_results_are_hit(u * (72 * o), o, p, integer(36));
        exact_results_are_hit(total, 1, r, integer(-24));
    }
}

/// The fader is silent at the bottom of the scale, leaves a signal alone at 0 dB, takes
/// away below it and adds above it.
pub proof fn fader_scales_by_its_level<F: Arith>(db: u32, r: u32)
    requires
        faithful::<F>(),
        raises_ten::<F>(),
        db_to_gain_is::<F>(db, r),
        finite(db),
    ensures
        !not_a_number(r) && rank(r) >= 0,
        units(db) <= -60 * one() ==> r == ZERO,
        units(db) == 0 ==> same(r, ONE),
        units(db) <= 0 ==> rank(r) <= rank(ONE),
        units(db) >= 0 ==> rank(r) >= rank(ONE),
        units(db) > -60 * one() ==> exists|e: u32| #[trigger]
            exp10_is::<F>(e, r) && rounds(units(db), 20, e),
{
    units_of_one();
    scale_constants();
    units_follow_the_order(db, BOT_DB);
    if !at_least(BOT_DB, db) {
        levels_are_powers_of_ten::<F>(db, r);
    }
}

/// A hundred and fifty pixels and a hundred percent.
proof fn travel_constants()
    ensures
        finite(KNOB_TRAVEL) && units(KNOB_TRAVEL) == 150 * one(),
        finite(HUNDRED) && units(HUNDRED) == 100 * one(),
{
    whole_numbers_are_numbers(150);
    whole_numbers_are_numbers(100);
    assert(whole(150) == KNOB_TRAVEL && whole(100) == HUNDRED) by {
        reveal_with_fuel(whole, 24);
    }
}

/// A drag of `150 t` pixels upwards turns a knob by `t` of its range, up for a drag up and
/// down for one down, not past its ends; 150 pixels or more reach an end from anywhere.
pub proof fn knob_turns_with_the_hand<F: Arith>(
    value: u32,
    dy: u32,
    t: u32,
    min_v: u32,
    max_v: u32,
    span: u32,
    r: u32,
)
    requires
        faithful::<F>(),
        turned_is::<F>(value, dy, min_v, max_v, r),
        finite(value) && finite(dy) && finite(min_v) && finite(max_v) && finite(span) && finite(t),
        units(min_v) <= units(value) <= units(max_v),
        units(span) == units(max_v) - units(min_v),
        units(span) <= 0x800 * one(),
        units(dy) == -150 * units(t),
        -0x800 * one() <= units(t) <= 0x800 * one(),
    ensures
        finite(r) && units(min_v) <= units(r) <= units(max_v),
        units(t) >= 0 ==> units(r) >= units(value),
        units(t) <= 0 ==> units(r) <= units(value),
        units(t) >= one() ==> units(r) == units(max_v),
        units(t) <= -one() ==> units(r) == units(min_v),
        exists|step: u32, raw: u32| #[trigger]
            rounds(units(t) * units(span), one(), step) && #[trigger] rounds(
                units(value) + units(step),
                1,
                raw,
            ) && r == clamped(raw, min_v, max_v),
{
    units_of_one();
    travel_constants();
    let (part, range, raw) = choose|part: u32, range: u32, raw: u32|
        #![trigger quotient_is::<F>(negated(dy), KNOB_TRAVEL, part), difference_is::<F>(max_v, min_v, range), mac_is::<F>(value, part, range, raw)]
        quotient_is::<F>(negated(dy), KNOB_TRAVEL, part) && difference_is::<F>(max_v, min_v, range)
            && mac_is::<F>(value, part, range, raw) && r == clamped(raw, min_v, max_v);
    units_of_negated(dy);
    let (o, u, s) = (one(), units(t), units(span));
    assert(u * (150 * o) == (150 * u) * o) by (nonlinear_arith);
    exact_results_are_hit((150 * u) * o, 150 * o, part, t);
    exact_results_are_hit(units(max_v) - units(min_v), 1, range, span);
    let step = choose|step: u32| #[trigger]
        product_is::<F>(part, range, step) && sum_is::<F>(value, step, raw);
    integers_are_numbers(0x40_0000);
    integers_are_numbers(-0x40_0000);
    assert(-0x40_0000 * o * o <= u * s <= 0x40_0000 * o * o) by (nonlinear_arith)
        requires
            -0x800 * o <= u <= 0x800 * o,
            0 <= s <= 0x800 * o,
            o > 0,
    ;
    rounds_below(u * s, o, step, integer(0x40_0000));
    rounds_above(u * s, o, step, integer(-0x40_0000));
    between_is_finite(integer(-0x40_0000), step, integer(0x40_0000));
    let total = units(value) + units(step);
    units_of_negated(span);
    if u >= 0 {
        assert(u * s >= 0) by (nonlinear_arith)
            requires
                u >= 0,
                s >= 0,
        ;
        rounds_above(u * s, o, step, ZERO);
        rounds_above(total, 1, raw, value);
    }
    if u <= 0 {
        assert(u * s <= 0) by (nonlinear_arith)
            requires
                u <= 0,
                s >= 0,
        ;
        rounds_below(u * s, o, step, ZERO);
        rounds_below(total, 1, raw, value);
    }
    if u >= o {
        assert(s * o <= u * s) by (nonlinear_arith)
            requires
                u >= o,
                s >= 0,
        ;
        rounds_above(u * s, o, step, span);
        rounds_above(total, 1, raw, max_v);
    }
    if u <= -o {
        assert(u * s <= -s * o) by (nonlinear_arith)
            requires
                u <= -o,
                s >= 0,
        ;
        rounds_below(u * s, o, step, negated(span));
        rounds_below(total, 1, raw, min_v);
    }
    units_follow_the_order(raw, min_v);
    units_follow_the_order(raw, max_v);
    units_follow_the_order(value, min_v);
    units_follow_the_order(value, max_v);
    between_is_finite(min_v, r, max_v);
    units_follow_the_order(r, value);
    assert(rounds(u * s, o, step) && rounds(total, 1, raw));
}

/// A knob stands at its share of its range: nowhere at its lower end and all the way at
/// its upper one.
pub proof fn knob_stands_at_its_share<F: Arith>(
    value: u32,
    min_v: u32,
    max_v: u32,
    gone: u32,
    span: u32,
    r: u32,
)
    requires
        faithful::<F>(),
        stand_is::<F>(value, min_v, max_v, r),
        finite(value) && finite(min_v) && finite(max_v) && finite(gone) && finite(span),
        units(min_v) <= units(value) <= units(max_v),
        units(gone) == units(value) - units(min_v),
        units(span) == units(max_v) - units(min_v),
        units(span) > 0,
    ensures
        rounds((units(value) - units(min_v)) * one(), units(max_v) - units(min_v), r),
        finite(r) && 0 <= units(r) <= one(),
        units(value) == units(min_v) ==> units(r) == 0,
        units(value) == units(max_v) ==> units(r) == one(),
{
    units_of_one();
    let (up, range, raw) = choose|up: u32, range: u32, raw: u32|
        #![trigger difference_is::<F>(value, min_v, up), difference_is::<F>(max_v, min_v, range), quotient_is::<F>(up, range, raw)]
        difference_is::<F>(value, min_v, up) && difference_is::<F>(max_v, min_v, range)
            && quotient_is::<F>(up, range, raw) && r == clamped(raw, ZERO, ONE);
    exact_results_are_hit(units(value) - units(min_v), 1, up, gone);
    exact_results_are_hit(units(max_v) - units(min_v), 1, range, span);
    let (g, s, o) = (units(gone), units(span), one());
    assert(0 <= g * o <= o * s) by (nonlinear_arith)
        requires
            0 <= g <= s,
            o > 0,
    ;
    rounds_above(g * o, s, raw, ZERO);
    rounds_below(g * o, s, raw, ONE);
    between_is_finite(ZERO, raw, ONE);
    if g == 0 {
        assert(0 * s == g * o) by (nonlinear_arith)
            requires
                g == 0,
        ;
        exact_results_are_hit(g * o, s, raw, ZERO);
    }
    if g == s {
        assert(o * s == g * o) by (nonlinear_arith)
            requires
                g == s,
        ;
        exact_results_are_hit(g * o, s, raw, ONE);
    }
}

/// The lamps around an enabled knob are lit up to where it stands: every one that it has
/// reached, and none that it is a whole lamp short of.
pub proof fn lamps_are_lit_up_to_the_knob<F: Arith>(i: usize, frac: u32, r: bool)
    requires
        faithful::<F>(),
        counts::<F>(),
        lit_is::<F>(i, frac, true, r),
        i < N_TICKS,
        finite(frac) && 0 <= units(frac) <= one(),
    ensures
        24 * units(frac) >= i * one() ==> r,
        24 * units(frac) <= (i - 1) * one() ==> !r,
{
    units_of_one();
    lemma2_to64();
    let (n, last, place, reach) = choose|n: u32, last: u32, place: u32, reach: u32|
        #![trigger of_count_is::<F>(i, n), of_count_is::<F>((N_TICKS - 1) as usize, last), quotient_is::<F>(n, last, place), sum_is::<F>(frac, LAMP_SLACK, reach)]
        of_count_is::<F>(i, n) && of_count_is::<F>((N_TICKS - 1) as usize, last) && quotient_is::<
            F,
        >(n, last, place) && sum_is::<F>(frac, LAMP_SLACK, reach) && r == (true && at_least(
            reach,
            place,
        ));
    counts_are_exact::<F>(i, n);
    counts_are_exact::<F>((N_TICKS - 1) as usize, last);
    constants_round(LAMP_SLACK, 1, 1000, 117, 0x3126f, 1024);
    let (u, o) = (units(frac), one());
    rounds_scales(i * o, 24, o, place);
    dyadics_are_numbers(1, 8);
    rounds_below(o, 1000, LAMP_SLACK, dyadic(1, 8));
    let total = u + units(LAMP_SLACK);
    rounds_above(total, 1, reach, frac);
    if 24 * u >= i * o {
        rounds_below(i * o, 24, place, frac);
    }
    if 24 * u <= (i - 1) * o {
        let k = (32 * i as int) / 3;
        assert(i >= 1) by (nonlinear_arith)
            requires
                0 <= 24 * u <= (i - 1) * o,
                o > 0,
        ;
        dyadics_are_numbers(k, 8);
        dyadics_are_numbers(k - 1, 8);
        let (hi, lo) = (units(dyadic(k, 8)), units(dyadic(k - 1, 8)));
        assert((k - 1) * o == k * o - o) by (nonlinear_arith);
        assert(24 * (k * o) <= 256 * (i * o)) by (nonlinear_arith)
            requires
                24 * k <= 256 * i,
                o > 0,
        ;
        assert(256 * ((i - 1) * o) + 24 * o <= 24 * (k * o) - 24 * o) by (nonlinear_arith)
            requires
                256 * (i - 1) + 24 <= 24 * k - 24,
                o > 0,
        ;
        rounds_above(i * o, 24, place, dyadic(k, 8));
        rounds_below(total, 1, reach, dyadic(k - 1, 8));
        units_follow_the_order(dyadic(k, 8), dyadic(k - 1, 8));
    }
}

/// Rounding a number gives a whole one, no further away than one half.
pub open spec fn rounds_off<F: Arith>() -> bool {
    forall|a: u32, r: u32|
        finite(a) && -0x40_0000 * one() <= units(a) <= 0x40_0000 * one() && #[trigger] round_is::<
            F,
        >(a, r) ==> finite(r) && (exists|m: int| units(r) == #[trigger] (m * one())) && -one() <= 2
            * (units(r) - units(a)) <= one()
}

/// A gain is shown in percent, next to a hundred times it.
pub proof fn percent_is_a_hundredth<F: Arith>(gain: u32, r: i32)
    requires
        faithful::<F>(),
        converts::<F>(),
        rounds_off::<F>(),
        percent_is::<F>(gain, r),
        finite(gain) && 0 <= units(gain) <= 1000 * one(),
    ensures
        -3 * one() <= 2 * (r * one() - 100 * units(gain)) <= 3 * one(),
        units(gain) == one() ==> r == 100,
        units(gain) == 0 ==> r == 0,
{
    units_of_one();
    travel_constants();
    let (p, whole) = choose|p: u32, whole: u32| #[trigger]
        product_is::<F>(gain, HUNDRED, p) && #[trigger] round_is::<F>(p, whole) && to_int_is::<F>(
            whole,
            r,
        );
    let (g, o) = (units(gain), one());
    assert(g * (100 * o) == (100 * g) * o) by (nonlinear_arith);
    rounds_scales(100 * g, 1, o, p);
    let k = (100 * g) / o;
    assert(k * o <= 100 * g < (k + 1) * o && 0 <= k) by {
        vstd::arithmetic::div_mod::lemma_fundamental_div_mod(100 * g, o);
        vstd::arithmetic::div_mod::lemma_mod_bound(100 * g, o);
        vstd::arithmetic::div_mod::lemma_div_pos_is_pos(100 * g, o);
        assert(o * k == k * o) by (nonlinear_arith);
        assert((k + 1) * o == k * o + o) by (nonlinear_arith);
    }
    assert(k <= 100_000) by (nonlinear_arith)
        requires
            k * o <= 100 * g,
            g <= 1000 * o,
            o > 0,
    ;
    integers_are_numbers(k);
    integers_are_numbers(k + 1);
    rounds_above(100 * g, 1, p, integer(k));
    rounds_below(100 * g, 1, p, integer(k + 1));
    between_is_finite(integer(k), p, integer(k + 1));
    assert((k + 1) * o == k * o + o) by (nonlinear_arith);
    assert(0 <= k * o <= 100_000 * o) by (nonlinear_arith)
        requires
            0 <= k <= 100_000,
            o > 0,
    ;
    let m = choose|m: int| units(whole) == #[trigger] (m * one());
    assert(r == m) by (nonlinear_arith)
        requires
            (r - 1) * o < m * o < (r + 1) * o,
            o > 0,
    ;
    if g == o {
        assert(k == 100) by (nonlinear_arith)
            requires
                k * o <= 100 * o < (k + 1) * o,
                o > 0,
        ;
        exact_results_are_hit(100 * g, 1, p, integer(k));
        assert(m == k) by (nonlinear_arith)
            requires
                -o <= 2 * (m * o - k * o) <= o,
                o > 0,
        ;
    }
    if g == 0 {
        assert(k == 0) by (nonlinear_arith)
            requires
                0 <= k * o <= 0,
                o > 0,
        ;
        exact_results_are_hit(100 * g, 1, p, integer(k));
        assert(m == k) by (nonlinear_arith)
            requires
                -o <= 2 * (m * o - k * o) <= o,
                o > 0,
        ;
    }
}

/// Whether `r` lies between two bytes.
pub open spec fn between(a: u8, b: u8, r: u8) -> bool {
    a <= r <= b || b <= r <= a
}

/// A mix of two bytes lies between them: the first at nothing, the second at all, and
/// their mean, cut down, half way.
pub proof fn bytes_mix_between<F: Arith>(a: u8, b: u8, t: u32, r: u8)
    requires
        faithful::<F>(),
        counts::<F>(),
        converts::<F>(),
        mixed_is::<F>(a, b, t, r),
        finite(t) && 0 <= units(t) <= one(),
    ensures
        between(a, b, r),
        units(t) == 0 ==> r == a,
        units(t) == one() ==> r == b,
        2 * units(t) == one() ==> r == (a + b) / 2,
{
    units_of_one();
    lemma2_to64();
    let (x, y, gap, m) = choose|x: u32, y: u32, gap: u32, m: u32|
        #![trigger of_count_is::<F>(a as usize, x), of_count_is::<F>(b as usize, y), difference_is::<F>(y, x, gap), mac_is::<F>(x, gap, t, m)]
        of_count_is::<F>(a as usize, x) && of_count_is::<F>(b as usize, y) && difference_is::<F>(
            y,
            x,
            gap,
        ) && mac_is::<F>(x, gap, t, m) && to_byte_is::<F>(m, r);
    counts_are_exact::<F>(a as usize, x);
    counts_are_exact::<F>(b as usize, y);
    let (o, d) = (one(), b - a);
    assert(b * o - a * o == d * o) by (nonlinear_arith)
        requires
            d == b - a,
    ;
    integers_are_numbers(d);
    exact_results_are_hit(b * o - a * o, 1, gap, integer(d));
    let p = choose|p: u32| #[trigger] product_is::<F>(gap, t, p) && sum_is::<F>(x, p, m);
    factor_up_to_one_shrinks::<F>(gap, t, p);
    let total = units(x) + units(p);
    let (lo, hi) = if a <= b {
        (a, b)
    } else {
        (b, a)
    };
    let (l, h) = if a <= b {
        (x, y)
    } else {
        (y, x)
    };
    assert(0 <= lo * o <= hi * o <= 255 * o) by (nonlinear_arith)
        requires
            0 <= lo <= hi <= 255,
            o > 0,
    ;
    rounds_above(total, 1, m, l);
    rounds_below(total, 1, m, h);
    between_is_finite(l, m, h);
    let n = choose|n: i32| #[trigger] to_int_is::<F>(m, n) && r == byte(n);
    let u = units(m);
    assert(lo <= n <= hi) by (nonlinear_arith)
        requires
            lo * o <= u <= hi * o,
            (n - 1) * o < u < (n + 1) * o,
            0 <= n * o <= u,
            o > 0,
    ;
    if units(t) == 0 {
        product_with_zero::<F>(gap, t, p);
        exact_results_are_hit(total, 1, m, x);
        whole_is_cut_to_itself(n as int, a as int, u);
    }
    if units(t) == o {
        product_with_one::<F>(gap, t, p);
        exact_results_are_hit(total, 1, m, y);
        whole_is_cut_to_itself(n as int, b as int, u);
    }
    if 2 * units(t) == o {
        dyadics_are_numbers(d, 1);
        dyadics_are_numbers(a + b, 1);
        let (e, v, s) = (units(dyadic(d, 1)), units(t), units(dyadic(a + b, 1)));
        assert(e * o == (d * o) * v) by (nonlinear_arith)
            requires
                e * 2 == d * o,
                2 * v == o,
        ;
        exact_results_are_hit((d * o) * v, o, p, dyadic(d, 1));
        assert(2 * (a * o) + d * o == (a + b) * o) by (nonlinear_arith)
            requires
                d == b - a,
        ;
        exact_results_are_hit(total, 1, m, dyadic(a + b, 1));
        let c = a + b;
        assert(2 * n <= c && c < 2 * n + 2) by (nonlinear_arith)
            requires
                2 * u == c * o,
                (n - 1) * o < u < (n + 1) * o,
                0 <= n * o <= u,
                o > 0,
        ;
    }
}

/// A whole number is cut down to itself.
proof fn whole_is_cut_to_itself(n: int, k: int, u: int)
    requires
        u == k * one(),
        (n - 1) * one() < u < (n + 1) * one(),
    ensures
        n == k,
{
    units_of_one();
    let o = one();
    assert(n == k) by (nonlinear_arith)
        requires
            (n - 1) * o < k * o < (n + 1) * o,
            o > 0,
    ;
}

/// A colour on the way from one to another lies between them in every part, and is the
/// first before the way begins and the second when it is over.
pub proof fn colours_go_from_one_to_the_other<F: Arith>(a: Rgb, b: Rgb, t: u32, c: Rgb)
    requires
        faithful::<F>(),
        counts::<F>(),
        converts::<F>(),
        lerp_color_is::<F>(a, b, t, c),
        !not_a_number(t),
    ensures
        between(a.r, b.r, c.r) && between(a.g, b.g, c.g) && between(a.b, b.b, c.b),
        at_least(ZERO, t) ==> c == a,
        at_least(t, ONE) ==> c == b,
        finite(t) && 2 * units(t) == one() ==> c.r == (a.r + b.r) / 2 && c.g == (a.g + b.g) / 2
            && c.b == (a.b + b.b) / 2,
{
    units_of_one();
    let at = clamped(t, ZERO, ONE);
    units_follow_the_order(at, ZERO);
    units_follow_the_order(at, ONE);
    units_follow_the_order(t, HALF);
    between_is_finite(ZERO, at, ONE);
    bytes_mix_between::<F>(a.r, b.r, at, c.r);
    bytes_mix_between::<F>(a.g, b.g, at, c.g);
    bytes_mix_between::<F>(a.b, b.b, at, c.b);
}

/// Whether a colour lies between two others in every part.
pub open spec fn between_colors(a: Rgb, b: Rgb, c: Rgb) -> bool {
    between(a.r, b.r, c.r) && between(a.g, b.g, c.g) && between(a.b, b.b, c.b)
}

/// A shade lies between its two colours; it is the first where it begins and the second
/// once the span is gone.
proof fn shades_lie_between<F: Arith>(a: Rgb, b: Rgb, f: u32, from: u32, over: u32, c: Rgb)
    requires
        faithful::<F>(),
        counts::<F>(),
        converts::<F>(),
        shaded_is::<F>(a, b, f, from, over, c),
        finite(f) && 0 <= units(f) <= one(),
        finite(from) && 0 <= units(from) <= one(),
        finite(over) && units(over) > 0,
    ensures
        between_colors(a, b, c),
        units(f) == units(from) ==> c == a,
        forall|gone: u32| #[trigger]
            finite(gone) && units(gone) == units(f) - units(from) && units(gone) >= units(over)
                ==> c == b,
{
    units_of_one();
    units_of_negated(ONE);
    let (up, t) = choose|up: u32, t: u32| #[trigger]
        difference_is::<F>(f, from, up) && #[trigger] quotient_is::<F>(up, over, t)
            && lerp_color_is::<F>(a, b, t, c);
    let gap = units(f) - units(from);
    rounds_above(gap, 1, up, negated(ONE));
    rounds_below(gap, 1, up, ONE);
    between_is_finite(negated(ONE), up, ONE);
    colours_go_from_one_to_the_other::<F>(a, b, t, c);
    let o = one();
    if gap == 0 {
        exact_results_are_hit(gap, 1, up, ZERO);
        assert(units(up) * o <= 0 * units(over)) by (nonlinear_arith)
            requires
                units(up) == 0,
        ;
        rounds_below(units(up) * o, units(over), t, ZERO);
    }
    assert forall|gone: u32| #[trigger]
        finite(gone) && units(gone) == units(f) - units(from) && units(gone) >= units(
            over,
        ) implies c == b by {
        exact_results_are_hit(gap, 1, up, gone);
        let (u, v) = (units(up), units(over));
        assert(o * v <= u * o) by (nonlinear_arith)
            requires
                u >= v,
                o > 0,
        ;
        rounds_above(u * o, v, t, ONE);
    }
}

/// The meter is green up to 0.62 of its height, goes to yellow from there to 0.84, and
/// above it to red, which it is at the top.
pub proof fn meter_colours_follow_the_level<F: Arith>(f: u32, c: Rgb)
    requires
        faithful::<F>(),
        counts::<F>(),
        converts::<F>(),
        meter_color_is::<F>(f, c),
        finite(f) && 0 <= units(f) <= one(),
    ensures
        100 * units(f) <= 61 * one() ==> c == green(),
        100 * units(f) <= 83 * one() ==> between_colors(green(), yellow(), c),
        100 * units(f) >= 85 * one() ==> between_colors(yellow(), red(), c),
        units(f) == one() ==> c == red(),
{
    units_of_one();
    lemma2_to64();
    constants_round(0x3e61_47ae, 22, 100, 124, 0x6147ae, 8);
    constants_round(0x3e23_d70a, 16, 100, 124, 0x23d70a, 8);
    let o = one();
    dyadics_are_numbers(0x9eb852, 24);
    dyadics_are_numbers(0xd70a3d, 24);
    dyadics_are_numbers(0x28f5c3, 24);
    dyadics_are_numbers(0xa3d70a, 26);
    assert(dyadic(0x9eb852, 24) == GREEN_TOP && dyadic(0xd70a3d, 24) == YELLOW_TOP);
    assert(dyadic(0xa3d70a, 26) == RED_SPAN);
    units_follow_the_order(f, GREEN_TOP);
    units_follow_the_order(f, YELLOW_TOP);
    if below(f, GREEN_TOP) {
    } else if below(f, YELLOW_TOP) {
        shades_lie_between::<F>(green(), yellow(), f, GREEN_TOP, YELLOW_SPAN, c);
    } else {
        shades_lie_between::<F>(yellow(), red(), f, YELLOW_TOP, RED_SPAN, c);
        assert(finite(dyadic(0x28f5c3, 24)));
    }
}

/// Slice `i` of the meter starts at `i / 32` of its height.
pub proof fn slices_share_the_meter<F: Arith>(i: usize, f: u32)
    requires
        faithful::<F>(),
        counts::<F>(),
        part_is::<F>(i, f),
        i <= SLICES,
    ensures
        finite(f) && 32 * units(f) == i * one(),
{
    units_of_one();
    lemma2_to64();
    let (n, all) = choose|n: u32, all: u32| #[trigger]
        of_count_is::<F>(i, n) && #[trigger] of_count_is::<F>(SLICES, all) && quotient_is::<F>(
            n,
            all,
            f,
        );
    counts_are_exact::<F>(i, n);
    counts_are_exact::<F>(SLICES, all);
    dyadics_are_numbers(i as int, 5);
    let (d, o) = (units(dyadic(i as int, 5)), one());
    assert(d * (32 * o) == (i * o) * o) by (nonlinear_arith)
        requires
            d * 32 == i * o,
    ;
    exact_results_are_hit((i * o) * o, 32 * o, f, dyadic(i as int, 5));
}

/// Segment `i` of the ring starts `i / 64` of a turn from the top.
pub proof fn segments_share_the_turn<F: Arith>(i: usize, a: u32)
    requires
        faithful::<F>(),
        counts::<F>(),
        angle_is::<F>(i, a),
        i <= RING_SEGMENTS,
    ensures
        exists|turns: u32| #[trigger]
            rounds(units(TAU) * i, 1, turns) && rounds(units(turns), 64, a),
{
    units_of_one();
    let (n, all, turns) = choose|n: u32, all: u32, turns: u32| #[trigger]
        of_count_is::<F>(i, n) && #[trigger] of_count_is::<F>(RING_SEGMENTS, all)
            && #[trigger] product_is::<F>(TAU, n, turns) && quotient_is::<F>(turns, all, a);
    counts_are_exact::<F>(i, n);
    counts_are_exact::<F>(RING_SEGMENTS, all);
    let (u, o) = (units(TAU), one());
    assert(u * (i * o) == (u * i) * o) by (nonlinear_arith);
    rounds_scales(u * i, 1, o, turns);
    units_follow_the_order(TAU, ZERO);
    whole_numbers_are_numbers(7);
    whole_numbers_are_numbers(448);
    assert(whole(7) == 0x40e0_0000u32) by {
        reveal_with_fuel(whole, 24);
    }
    units_follow_the_order(TAU, whole(7));
    assert(0 <= u * i <= 448 * o) by (nonlinear_arith)
        requires
            0 <= u <= 7 * o,
            0 <= i <= 64,
    ;
    rounds_above(u * i, 1, turns, ZERO);
    rounds_below(u * i, 1, turns, whole(448));
    between_is_finite(ZERO, turns, whole(448));
    rounds_scales(units(turns), 64, o, a);
}

/// Slice `i` of the meter goes from `i / 32` of the height to `(i + 1) / 32`, and no
/// further than the meter is filled.
pub proof fn slices_fill_the_meter<F: Arith>(i: usize, h: u32, fill: u32, s: Slice)
    requires
        faithful::<F>(),
        counts::<F>(),
        slice_is::<F>(i, h, fill, s),
        i < SLICES,
        finite(h) && 0 <= units(h) && finite(fill),
    ensures
        rounds(i * units(h), 32, s.from),
        finite(s.from) && finite(s.to),
        units(s.from) <= units(fill) && units(s.to) <= units(fill),
        s.to == fill || rounds((i + 1) * units(h), 32, s.to),
{
    units_of_one();
    let (f0, f1, end) = choose|f0: u32, f1: u32, end: u32|
        #![trigger part_is::<F>(i, f0), part_is::<F>((i + 1) as usize, f1), product_is::<F>(f1, h, end)]
        part_is::<F>(i, f0) && part_is::<F>((i + 1) as usize, f1) && product_is::<F>(f0, h, s.from)
            && !below(fill, s.from) && product_is::<F>(f1, h, end) && s.to == lesser(end, fill)
            && meter_color_is::<F>(f0, s.color);
    slices_share_the_meter::<F>(i, f0);
    slices_share_the_meter::<F>((i + 1) as usize, f1);
    let (a, b, u, o) = (units(f0), units(f1), units(h), one());
    let j = i + 1;
    assert(0 <= a <= o && 0 < b <= o) by (nonlinear_arith)
        requires
            32 * a == i * o,
            32 * b == j * o,
            0 <= i < 32,
            j == i + 1,
            o > 0,
    ;
    shares_round(i as int, a, u, s.from);
    shares_round(j, b, u, end);
    factor_up_to_one_shrinks::<F>(h, f0, s.from);
    factor_up_to_one_shrinks::<F>(h, f1, end);
    units_follow_the_order(s.from, fill);
    units_follow_the_order(end, fill);
}

/// A share of 32 of a height is what the share times the height rounds to.
proof fn shares_round(i: int, a: int, u: int, r: u32)
    requires
        32 * a == i * one(),
        rounds(a * u, one(), r),
    ensures
        rounds(i * u, 32, r),
{
    units_of_one();
    let o = one();
    assert forall|c: u32| #[trigger] finite(c) implies (units(c) * 32 <= i * u ==> rank(c) <= rank(
        r,
    )) && (i * u <= units(c) * 32 ==> rank(r) <= rank(c)) by {
        let v = units(c);
        assert(32 * (a * u) == (i * u) * o) by (nonlinear_arith)
            requires
                32 * a == i * o,
        ;
        assert(v * 32 <= i * u ==> v * o <= a * u) by (nonlinear_arith)
            requires
                32 * (a * u) == (i * u) * o,
                o > 0,
        ;
        assert(i * u <= v * 32 ==> a * u <= v * o) by (nonlinear_arith)
            requires
                32 * (a * u) == (i * u) * o,
                o > 0,
        ;
    }
}

/// The ring goes from the one colour at the top to the other at the bottom and back: by the
/// cosine of the angle in the middle of a segment.
pub proof fn ring_fades_there_and_back<F: Arith>(a0: u32, a1: u32, c: Rgb)
    requires
        faithful::<F>(),
        counts::<F>(),
        converts::<F>(),
        ring_color_is::<F>(a0, a1, c),
        finite(a0) && 0 <= units(a0) <= 7 * one(),
        finite(a1) && 0 <= units(a1) <= 7 * one(),
        forall|a: u32, x: u32| #[trigger]
            cos_is::<F>(a, x) ==> finite(x) && -one() <= units(x) <= one(),
    ensures
        between_colors(purple(), magenta(), c),
        exists|both: u32, mid: u32, x: u32|
            #![trigger rounds(units(a0) + units(a1), 1, both), rounds(units(both), 2, mid), cos_is::<F>(mid, x)]
            {
                &&& rounds(units(a0) + units(a1), 1, both)
                &&& rounds(units(both), 2, mid)
                &&& cos_is::<F>(mid, x)
                &&& units(x) == one() ==> c == purple()
                &&& units(x) == -one() ==> c == magenta()
            },
{
    units_of_one();
    let (both, mid, x, rest, t) = choose|both: u32, mid: u32, x: u32, rest: u32, t: u32|
        #![trigger sum_is::<F>(a0, a1, both), quotient_is::<F>(both, TWO, mid), cos_is::<F>(mid, x), difference_is::<F>(ONE, x, rest), quotient_is::<F>(rest, TWO, t)]
        sum_is::<F>(a0, a1, both) && quotient_is::<F>(both, TWO, mid) && cos_is::<F>(mid, x)
            && difference_is::<F>(ONE, x, rest) && quotient_is::<F>(rest, TWO, t)
            && lerp_color_is::<F>(purple(), magenta(), t, c);
    whole_numbers_are_numbers(14);
    let total = units(a0) + units(a1);
    rounds_above(total, 1, both, ZERO);
    rounds_below(total, 1, both, whole(14));
    between_is_finite(ZERO, both, whole(14));
    rounds_scales(units(both), 2, one(), mid);
    let left = one() - units(x);
    rounds_above(left, 1, rest, ZERO);
    rounds_below(left, 1, rest, TWO);
    between_is_finite(ZERO, rest, TWO);
    colours_go_from_one_to_the_other::<F>(purple(), magenta(), t, c);
    rounds_scales(units(rest), 2, one(), t);
    if left == 0 {
        exact_results_are_hit(left, 1, rest, ZERO);
        exact_results_are_hit(units(rest), 2, t, ZERO);
    }
    if left == 2 * one() {
        exact_results_are_hit(left, 1, rest, TWO);
        exact_results_are_hit(units(rest), 2, t, ONE);
    }
}

/// The fader goes where it is touched: +12 dB at the top, silence at the bottom, 0 dB and a
/// gain of one on a reset, and nowhere where it is let be; it has changed exactly where its
/// gain is another.
pub proof fn fader_goes_where_it_is_touched<F: Arith>(
    gain: u32,
    touch: Touch,
    top: u32,
    h: u32,
    r: Fader,
)
    requires
        faithful::<F>(),
        raises_ten::<F>(),
        slid_is::<F>(gain, touch, top, h, r),
        finite(top) && finite(h),
        -0x10_0000 * one() <= units(top) <= 0x10_0000 * one(),
        one() <= units(h),
        touch matches Touch::At(y) ==> finite(y) && -0x10_0000 * one() <= units(y) <= 0x10_0000
            * one(),
    ensures
        r.changed <==> r.gain != gain,
        touch is Idle ==> r.gain == gain && !r.changed,
        touch is Reset ==> r.gain == ONE && r.db == ZERO,
        touch matches Touch::At(y) ==> (units(y) <= units(top) ==> units(r.db) == 12 * one() && rank(
            r.gain,
        ) >= rank(ONE)) && (units(y) >= units(top) + units(h) ==> units(r.db) == -60 * one()
            && r.gain == ZERO),
{
    units_of_one();
    if let Touch::At(y) = touch {
        fader_spans_the_scale::<F>(y, top, h, r.db);
        fader_scales_by_its_level::<F>(r.db, r.gain);
    }
}

/// A double click puts a knob to its default, whatever else the hand does; a drag of a full
/// travel up or down turns it to its end, and without either it stays.
pub proof fn hands_turn_or_reset<F: Arith>(
    value: u32,
    grip: Grip,
    default_v: u32,
    min_v: u32,
    max_v: u32,
    span: u32,
    r: u32,
)
    requires
        faithful::<F>(),
        gripped_is::<F>(value, grip, default_v, min_v, max_v, r),
        finite(value) && finite(min_v) && finite(max_v) && finite(span),
        units(min_v) <= units(value) <= units(max_v),
        units(span) == units(max_v) - units(min_v),
        units(span) <= 0x800 * one(),
    ensures
        grip.reset ==> r == default_v,
        !grip.reset && grip.drag is None ==> r == value,
        !grip.reset && grip.drag is Some && finite(grip.drag->0) && units(grip.drag->0) == -150
            * one() ==> units(r) == units(max_v),
        !grip.reset && grip.drag is Some && finite(grip.drag->0) && units(grip.drag->0) == 150
            * one() ==> units(r) == units(min_v),
{
    units_of_one();
    units_of_negated(ONE);
    if !grip.reset && grip.drag is Some && finite(grip.drag->0) {
        let dy = grip.drag->0;
        if units(dy) == -150 * one() {
            knob_turns_with_the_hand::<F>(value, dy, ONE, min_v, max_v, span, r);
        }
        if units(dy) == 150 * one() {
            knob_turns_with_the_hand::<F>(value, dy, negated(ONE), min_v, max_v, span, r);
        }
    }
}

} // verus!
