//! Pharmacode (Laetus) — one-track and two-track.
//!
//! One-track encodes an integer `3..=131070` as thin/thick bars separated by narrow
//! spaces: read right to left, bar `n` contributes `2^n` (thin) or `2·2^n` (thick),
//! i.e. a bijective base-2 numeral with digits {1, 2}. A thin bar is one module, a
//! thick bar [`WIDE`] modules.
//!
//! Two-track encodes `4..=64570080` as a bijective base-3 numeral whose digits
//! {1, 2, 3} are drawn here as bars of 1, 2 or 3 modules separated by single-module
//! spaces (a lossless linearization of the height-modulated symbol).
use vstd::prelude::*;
use crate::error::Error;
use crate::output::{Encoding, LinearPattern, expand, positive_runs, widths, runs_of, lemma_expand_unique, run_of};
use crate::poly::horner_int;
use crate::segment::{Segment, Mode, payload_of};
use crate::symbol::{Symbol, SymbolMeta};
use crate::symbology::Symbology;
use crate::text::{parse_u32, u32_to_decimal, parses_u32, parsed_u32, dec_string, lemma_dec_string, all_digits};

verus! {

/// Module width of a thick (one-track) bar.
pub const WIDE: u32 = 3;
/// Quiet-zone width in narrow modules on each side.
pub const QUIET_ZONE: usize = 10;

/// Parameters required to re-encode a Pharmacode symbol identically (none: the value
/// lives in the segment and the track count in the symbology).
#[derive(Debug, Clone, Copy, PartialEq, Eq, Default, Structural)]
pub struct PharmacodeMeta;

/// Bar widths joined by single-module spaces, as alternating runs.
pub open spec fn with_gaps(ws: Seq<int>) -> Seq<int> {
    if ws.len() == 0 {
        Seq::empty()
    } else {
        Seq::new((2 * ws.len() - 1) as nat, |i: int| if i % 2 == 0 { ws[i / 2] } else { 1 })
    }
}

/// One-track bars (left to right) of `n`: thin `1` for digit 1, thick `WIDE` for 2.
pub open spec fn one_track_spec(n: nat) -> Seq<int>
    decreases n,
{
    if n == 0 {
        Seq::empty()
    } else if n % 2 == 1 {
        one_track_spec(((n - 1) / 2) as nat).push(1)
    } else {
        one_track_spec(((n - 2) / 2) as nat).push(3)
    }
}

/// Two-track bars (left to right) of `n`: ternary digits 1..=3.
pub open spec fn two_track_spec(n: nat) -> Seq<int>
    decreases n,
{
    if n == 0 {
        Seq::empty()
    } else if n % 3 == 0 {
        two_track_spec((n / 3 - 1) as nat).push(3)
    } else {
        two_track_spec(n / 3).push((n % 3) as int)
    }
}

/// The one-track digit a bar width stands for.
pub open spec fn one_digit(w: int) -> int {
    if w == 1 { 1 } else { 2 }
}

/// The value one-track bars read as.
pub open spec fn one_track_val(bars: Seq<int>) -> int {
    horner_int(bars.map_values(|w: int| one_digit(w)), 2)
}

/// One-track bars read back to their value.
pub proof fn lemma_one_track_value(n: nat)
    ensures
        one_track_val(one_track_spec(n)) == n,
        forall|i: int| 0 <= i < one_track_spec(n).len() ==> #[trigger] one_track_spec(n)[i] == 1 || one_track_spec(n)[i] == 3,
    decreases n,
{
    if n > 0 {
        let m = if n % 2 == 1 { ((n - 1) / 2) as nat } else { ((n - 2) / 2) as nat };
        lemma_one_track_value(m);
        let s = one_track_spec(n);
        assert(s.drop_last() == one_track_spec(m));
        assert(s.map_values(|w: int| one_digit(w)).drop_last() =~= one_track_spec(m).map_values(|w: int| one_digit(w)));
        assert forall|i: int| 0 <= i < s.len() implies #[trigger] s[i] == 1 || s[i] == 3 by {
            if i < s.len() - 1 {
                assert(s[i] == one_track_spec(m)[i]);
            }
        }
    }
}

/// Two-track bars read back to their value.
pub proof fn lemma_two_track_value(n: nat)
    ensures
        horner_int(two_track_spec(n), 3) == n,
        forall|i: int| 0 <= i < two_track_spec(n).len() ==> 1 <= #[trigger] two_track_spec(n)[i] <= 3,
    decreases n,
{
    if n > 0 {
        let m = if n % 3 == 0 { (n / 3 - 1) as nat } else { n / 3 };
        lemma_two_track_value(m);
        let s = two_track_spec(n);
        assert(s.drop_last() == two_track_spec(m));
        assert forall|i: int| 0 <= i < s.len() implies 1 <= #[trigger] s[i] <= 3 by {
            if i < s.len() - 1 {
                assert(s[i] == two_track_spec(m)[i]);
            }
        }
    }
}

/// Parse the numeric payload as a `u32`.
fn parse_value(payload: &[u8]) -> (r: Result<u32, Error>)
    ensures
        r is Ok <==> parses_u32(payload@),
        r matches Ok(v) ==> v == parsed_u32(payload@),
        r is Err ==> r == Err::<u32, Error>(Error::InvalidData),
{
    match parse_u32(payload) {
        Some(v) => Ok(v),
        None => Err(Error::InvalidData),
    }
}

/// Append `width` copies of `bar` to `modules`.
fn push_run(modules: &mut Vec<bool>, bar: bool, width: u32)
    ensures
        final(modules)@ == old(modules)@ + run_of(bar, width as nat),
{
    let mut i: u32 = 0;
    while i < width
        invariant
            i <= width,
            modules@ == old(modules)@ + run_of(bar, i as nat),
        decreases width - i,
    {
        modules.push(bar);
        i = i + 1;
        proof {
            assert(modules@ =~= old(modules)@ + run_of(bar, i as nat));
        }
    }
}

/// Render a left-to-right sequence of bar widths, joined by single-module spaces.
fn render_bars(bar_widths: &[u32]) -> (modules: Vec<bool>)
    ensures
        modules@ == expand(with_gaps(widths(bar_widths@))),
{
    let mut modules: Vec<bool> = Vec::new();
    let ghost mut runs: Seq<int> = Seq::empty();
    let mut i: usize = 0;
    while i < bar_widths.len()
        invariant
            i <= bar_widths@.len(),
            runs == with_gaps(widths(bar_widths@.take(i as int))),
            runs.len() == (if i == 0 { 0 } else { 2 * i - 1 }),
            modules@ == expand(runs),
        decreases bar_widths@.len() - i,
    {
        let w = bar_widths[i];
        if i > 0 {
            proof {
                assert(runs.push(1).drop_last() =~= runs);
                assert(expand(runs.push(1)) == expand(runs) + run_of(false, 1));
            }
            push_run(&mut modules, false, 1);
            proof {
                runs = runs.push(1);
            }
        }
        proof {
            assert(runs.push(w as int).drop_last() =~= runs);
            assert(runs.len() % 2 == 0);
            assert(expand(runs.push(w as int)) == expand(runs) + run_of(true, w as nat));
        }
        push_run(&mut modules, true, w);
        proof {
            runs = runs.push(w as int);
            assert(runs =~= with_gaps(widths(bar_widths@.take(i + 1))));
        }
        i = i + 1;
    }
    proof {
        assert(bar_widths@.take(bar_widths@.len() as int) =~= bar_widths@);
    }
    modules
}

/// Run-length encode into element widths, and return only the bar widths (the
/// spaces, at odd indices, must all be narrow).
fn bar_widths(modules: &[bool]) -> (r: Result<Vec<u32>, Error>)
    requires
        modules@.len() <= u32::MAX,
    ensures
        r matches Ok(v) ==> v@.len() >= 1 && positive_runs(widths(v@)) && expand(with_gaps(widths(v@))) == modules@,
        forall|ws: Seq<int>|
            #![trigger with_gaps(ws)]
            ws.len() >= 1 && positive_runs(ws) && expand(with_gaps(ws)) == modules@ ==> (r matches Ok(v) && widths(v@) == ws),
        r is Err ==> r == Err::<Vec<u32>, Error>(Error::Undecodable),
{
    if modules.len() == 0 || !modules[0] {
        proof {
            assert forall|ws: Seq<int>| ws.len() >= 1 && positive_runs(ws) && expand(with_gaps(ws)) == modules@ implies false by {
                lemma_gaps_positive(ws);
                lemma_first_bar(with_gaps(ws));
            }
        }
        return Err(Error::Undecodable);
    }
    let runs = runs_of(modules);
    let ghost rs = widths(runs@);
    proof {
        assert forall|ws: Seq<int>| ws.len() >= 1 && positive_runs(ws) && expand(with_gaps(ws)) == modules@ implies rs == with_gaps(ws) by {
            lemma_gaps_positive(ws);
            lemma_expand_unique(rs, with_gaps(ws));
        }
    }
    // Bars at even indices, spaces (all narrow) at odd indices.
    if runs.len() % 2 == 0 {
        return Err(Error::Undecodable);
    }
    let mut out: Vec<u32> = Vec::new();
    let mut i: usize = 0;
    while i < runs.len()
        invariant
            i <= runs@.len(),
            runs@.len() % 2 == 1,
            rs == widths(runs@),
            positive_runs(rs),
            forall|ws: Seq<int>| ws.len() >= 1 && positive_runs(ws) && expand(#[trigger] with_gaps(ws)) == modules@ ==> rs == with_gaps(ws),
            i % 2 == 0 || i == runs@.len(),
            out@.len() == (i + 1) / 2,
            forall|j: int| 0 <= j < out@.len() ==> out@[j] == runs@[2 * j],
            forall|j: int| 0 <= j < i && j % 2 == 1 ==> runs@[j] == 1,
        decreases runs@.len() - i,
    {
        out.push(runs[i]);
        if i + 1 < runs.len() {
            if runs[i + 1] != 1 {
                proof {
                    assert forall|ws: Seq<int>| ws.len() >= 1 && positive_runs(ws) && expand(with_gaps(ws)) == modules@ implies false by {
                        assert(rs == with_gaps(ws));
                        assert(with_gaps(ws)[i + 1] == 1);
                    }
                }
                return Err(Error::Undecodable);
            }
            i = i + 2;
        } else {
            i = i + 1;
        }
    }
    proof {
        let ow = widths(out@);
        assert(with_gaps(ow) =~= rs);
        assert forall|j: int| 0 <= j < ow.len() implies #[trigger] ow[j] >= 1 by {
            assert(ow[j] == rs[2 * j]);
        }
        assert forall|ws: Seq<int>| ws.len() >= 1 && positive_runs(ws) && expand(with_gaps(ws)) == modules@ implies ow == ws by {
            assert(rs == with_gaps(ws));
            assert forall|j: int| 0 <= j < ws.len() implies ow[j] == ws[j] by {
                assert(with_gaps(ws)[2 * j] == ws[j]);
            }
            assert(ow =~= ws);
        }
    }
    Ok(out)
}

/// Bars joined by narrow spaces form positive runs.
proof fn lemma_gaps_positive(ws: Seq<int>)
    requires
        positive_runs(ws),
    ensures
        positive_runs(with_gaps(ws)),
{
    assert forall|i: int| 0 <= i < with_gaps(ws).len() implies #[trigger] with_gaps(ws)[i] >= 1 by {
        if i % 2 == 0 {
            assert(ws[i / 2] >= 1);
        }
    }
}

/// A non-empty expansion of positive runs starts with a bar.
proof fn lemma_first_bar(r: Seq<int>)
    requires
        positive_runs(r),
        r.len() >= 1,
    ensures
        expand(r).len() >= 1,
        expand(r)[0],
    decreases r.len(),
{
    if r.len() == 1 {
        assert(r.drop_last() =~= Seq::<int>::empty());
        assert(expand(r.drop_last()) =~= Seq::<bool>::empty());
        assert(r[0] >= 1);
    } else {
        lemma_first_bar(r.drop_last());
    }
}

/// Left-to-right bar widths for a one-track value (thin = 1, thick = [`WIDE`]).
pub fn one_track_bars(n: u32) -> (bars: Vec<u32>)
    ensures
        widths(bars@) == one_track_spec(n as nat),
{
    let mut rev: Vec<u32> = Vec::new(); // least-significant first
    let mut n = n;
    let ghost n0 = n;
    while n > 0
        invariant
            one_track_spec(n0 as nat) == one_track_spec(n as nat) + widths(rev@).reverse(),
        decreases n,
    {
        let ghost before = widths(rev@);
        if n % 2 == 1 {
            rev.push(1);
            proof {
                assert(widths(rev@).reverse() =~= seq![1int] + before.reverse());
                assert(one_track_spec(n as nat) =~= one_track_spec(((n - 1) / 2) as nat).push(1));
            }
            n = (n - 1) / 2;
        } else {
            rev.push(WIDE);
            proof {
                assert(widths(rev@).reverse() =~= seq![3int] + before.reverse());
                assert(one_track_spec(n as nat) =~= one_track_spec(((n - 2) / 2) as nat).push(3));
            }
            n = (n - 2) / 2;
        }
        proof {
            assert(one_track_spec(n0 as nat) =~= one_track_spec(n as nat) + widths(rev@).reverse());
        }
    }
    reverse_u32(rev)
}

/// `v` reversed.
fn reverse_u32(v: Vec<u32>) -> (r: Vec<u32>)
    ensures
        r@ == v@.reverse(),
        widths(r@) == widths(v@).reverse(),
{
    let mut r: Vec<u32> = Vec::new();
    let mut i: usize = v.len();
    while i > 0
        invariant
            i <= v@.len(),
            r@ == v@.subrange(i as int, v@.len() as int).reverse(),
        decreases i,
    {
        i = i - 1;
        r.push(v[i]);
        proof {
            assert(r@ =~= v@.subrange(i as int, v@.len() as int).reverse());
        }
    }
    proof {
        assert(v@.subrange(0, v@.len() as int) =~= v@);
        assert(widths(r@) =~= widths(v@).reverse());
    }
    r
}

/// Recover a one-track value from its left-to-right bar widths.
fn one_track_value(bars: &[u32]) -> (r: Result<u32, Error>)
    ensures
        r matches Ok(v) ==> v == one_track_val(widths(bars@)) && positive_runs(widths(bars@)),
        positive_runs(widths(bars@)) && one_track_val(widths(bars@)) <= u32::MAX ==> r is Ok,
        r is Err ==> r == Err::<u32, Error>(Error::Undecodable),
{
    let mut value: u64 = 0;
    let mut i: usize = 0;
    while i < bars.len()
        invariant
            i <= bars@.len(),
            value == one_track_val(widths(bars@.take(i as int))),
            value <= u32::MAX,
            positive_runs(widths(bars@.take(i as int))),
        decreases bars@.len() - i,
    {
        let w = bars[i];
        let ghost pre = widths(bars@.take(i as int));
        proof {
            let t = widths(bars@.take(i + 1));
            assert(t.drop_last() =~= pre);
            assert(t.map_values(|w: int| one_digit(w)).drop_last() =~= pre.map_values(|w: int| one_digit(w)));
        }
        if w == 0 {
            proof {
                assert(widths(bars@)[i as int] == 0);
            }
            return Err(Error::Undecodable);
        }
        let digit: u64 = if w == 1 { 1 } else { 2 };
        let next = value * 2 + digit;
        proof {
            let t = widths(bars@.take(i + 1));
            assert(t.last() == w);
            assert(one_track_val(t) == next);
        }
        if next > 0xffff_ffff {
            proof {
                lemma_one_track_grows(widths(bars@), (i + 1) as nat);
                assert(widths(bars@).take(i + 1) =~= widths(bars@.take(i + 1)));
            }
            return Err(Error::Undecodable);
        }
        value = next;
        i = i + 1;
        proof {
            assert forall|j: int| 0 <= j < widths(bars@.take(i as int)).len() implies #[trigger] widths(bars@.take(i as int))[j] >= 1 by {
                if j < i - 1 {
                    assert(widths(bars@.take(i as int))[j] == pre[j]);
                }
            }
        }
    }
    proof {
        assert(bars@.take(bars@.len() as int) =~= bars@);
    }
    Ok(value as u32)
}

/// Appending bars never decreases the one-track value.
proof fn lemma_one_track_grows(bars: Seq<int>, k: nat)
    requires
        k <= bars.len(),
    ensures
        one_track_val(bars) >= one_track_val(bars.take(k as int)),
        one_track_val(bars.take(k as int)) >= 0,
    decreases bars.len() - k,
{
    lemma_one_track_nonneg(bars.take(k as int));
    if k < bars.len() {
        lemma_one_track_grows(bars, k + 1);
        let t = bars.take((k + 1) as int);
        assert(t.map_values(|w: int| one_digit(w)).drop_last() =~= bars.take(k as int).map_values(|w: int| one_digit(w)));
        let a = one_track_val(bars.take(k as int));
        assert(a * 2 >= a) by (nonlinear_arith) requires a >= 0;
    } else {
        assert(bars.take(k as int) =~= bars);
    }
}

/// One-track values are non-negative.
proof fn lemma_one_track_nonneg(bars: Seq<int>)
    ensures
        one_track_val(bars) >= 0,
    decreases bars.len(),
{
    if bars.len() > 0 {
        assert(bars.map_values(|w: int| one_digit(w)).drop_last() =~= bars.drop_last().map_values(|w: int| one_digit(w)));
        lemma_one_track_nonneg(bars.drop_last());
        let a = one_track_val(bars.drop_last());
        assert(a * 2 >= 0) by (nonlinear_arith) requires a >= 0;
    }
}

/// Left-to-right ternary digits (bar widths 1/2/3) for a two-track value.
pub fn two_track_bars(n: u32) -> (bars: Vec<u32>)
    ensures
        widths(bars@) == two_track_spec(n as nat),
{
    let mut rev: Vec<u32> = Vec::new();
    let mut n = n;
    let ghost n0 = n;
    while n > 0
        invariant
            two_track_spec(n0 as nat) == two_track_spec(n as nat) + widths(rev@).reverse(),
        decreases n,
    {
        let ghost before = widths(rev@);
        let r = n % 3;
        if r == 0 {
            rev.push(3);
            proof {
                assert(widths(rev@).reverse() =~= seq![3int] + before.reverse());
                assert(two_track_spec(n as nat) =~= two_track_spec((n / 3 - 1) as nat).push(3));
            }
            n = n / 3 - 1;
        } else {
            rev.push(r);
            proof {
                assert(widths(rev@).reverse() =~= seq![r as int] + before.reverse());
                assert(two_track_spec(n as nat) =~= two_track_spec((n / 3) as nat).push(r as int));
            }
            n = n / 3;
        }
        proof {
            assert(two_track_spec(n0 as nat) =~= two_track_spec(n as nat) + widths(rev@).reverse());
        }
    }
    reverse_u32(rev)
}

/// Recover a two-track value from its left-to-right bar widths (1/2/3).
fn two_track_value(bars: &[u32]) -> (r: Result<u32, Error>)
    ensures
        r matches Ok(v) ==> v == horner_int(widths(bars@), 3),
        (forall|i: int| 0 <= i < bars@.len() ==> 1 <= #[trigger] bars@[i] <= 3) && horner_int(widths(bars@), 3) <= u32::MAX ==> r is Ok,
        r is Ok ==> forall|i: int| 0 <= i < bars@.len() ==> 1 <= #[trigger] bars@[i] <= 3,
        r is Err ==> r == Err::<u32, Error>(Error::Undecodable),
{
    let mut value: u64 = 0;
    let mut i: usize = 0;
    while i < bars.len()
        invariant
            i <= bars@.len(),
            value == horner_int(widths(bars@.take(i as int)), 3),
            value <= u32::MAX,
            forall|j: int| 0 <= j < i ==> 1 <= #[trigger] bars@[j] <= 3,
        decreases bars@.len() - i,
    {
        let w = bars[i];
        proof {
            assert(widths(bars@.take(i + 1)).drop_last() =~= widths(bars@.take(i as int)));
        }
        if !(1 <= w && w <= 3) {
            return Err(Error::Undecodable);
        }
        let next = value * 3 + w as u64;
        proof {
            let t = widths(bars@.take(i + 1));
            assert(t.last() == w);
            assert(horner_int(t, 3) == next);
        }
        if next > 0xffff_ffff {
            proof {
                lemma_ternary_grows(widths(bars@), (i + 1) as nat);
                assert(widths(bars@).take(i + 1) =~= widths(bars@.take(i + 1)));
            }
            return Err(Error::Undecodable);
        }
        value = next;
        i = i + 1;
    }
    proof {
        assert(bars@.take(bars@.len() as int) =~= bars@);
    }
    Ok(value as u32)
}

/// Appending digits 1..=3 never decreases a base-3 value.
proof fn lemma_ternary_grows(bars: Seq<int>, k: nat)
    requires
        k <= bars.len(),
    ensures
        (forall|i: int| 0 <= i < bars.len() ==> 1 <= #[trigger] bars[i] <= 3) ==> horner_int(bars, 3) >= horner_int(bars.take(k as int), 3)
            && horner_int(bars.take(k as int), 3) >= 0,
    decreases bars.len() - k,
{
    if forall|i: int| 0 <= i < bars.len() ==> 1 <= #[trigger] bars[i] <= 3 {
        lemma_ternary_nonneg(bars.take(k as int));
        if k < bars.len() {
            lemma_ternary_grows(bars, k + 1);
            let t = bars.take((k + 1) as int);
            assert(t.drop_last() =~= bars.take(k as int));
            let a = horner_int(bars.take(k as int), 3);
            assert(bars[k as int] >= 1);
            assert(a * 3 >= a) by (nonlinear_arith) requires a >= 0;
        } else {
            assert(bars.take(k as int) =~= bars);
        }
    }
}

/// Base-3 values of digits 1..=3 are non-negative.
proof fn lemma_ternary_nonneg(bars: Seq<int>)
    requires
        forall|i: int| 0 <= i < bars.len() ==> 1 <= #[trigger] bars[i] <= 3,
    ensures
        horner_int(bars, 3) >= 0,
    decreases bars.len(),
{
    if bars.len() > 0 {
        assert(bars.drop_last()[0] == bars[0] || bars.len() == 1);
        lemma_ternary_nonneg(bars.drop_last());
        let a = horner_int(bars.drop_last(), 3);
        assert(bars[bars.len() - 1] >= 1);
        assert(a * 3 >= 0) by (nonlinear_arith) requires a >= 0;
    }
}


/// The range one-track Pharmacode can carry.
pub open spec fn one_track_range(v: int) -> bool {
    3 <= v <= 131070
}

/// The range two-track Pharmacode can carry.
pub open spec fn two_track_range(v: int) -> bool {
    4 <= v <= 64570080
}

/// The modules of a Pharmacode symbol for `v`.
pub open spec fn pharma_modules(v: nat, two_track: bool) -> Seq<bool> {
    if two_track {
        expand(with_gaps(two_track_spec(v)))
    } else {
        expand(with_gaps(one_track_spec(v)))
    }
}

/// Pharmacode encoder.
#[derive(Debug, Default, Clone, Copy)]
pub struct PharmacodeEncoder;

impl PharmacodeEncoder {
    /// A new encoder.
    pub fn new() -> (e: Self) {
        PharmacodeEncoder
    }

    /// Build a one-track symbol for `value` (`3..=131070`).
    pub fn build(&self, value: u32) -> (r: Result<Symbol, Error>)
        ensures
            r is Ok <==> one_track_range(value as int),
            r matches Ok(s) ==> s.symbology == Symbology::Pharmacode && s.segments@.len() == 1
                && s.segments@[0].mode == Mode::Numeric && s.segments@[0].data@ == dec_string(value as nat)
                && s.meta == SymbolMeta::Pharmacode(PharmacodeMeta),
            r is Err ==> r == Err::<Symbol, Error>(Error::Capacity),
    {
        if !(3 <= value && value <= 131070) {
            return Err(Error::Capacity);
        }
        let mut segs: Vec<Segment> = Vec::new();
        segs.push(Segment::numeric(u32_to_decimal(value)));
        Ok(Symbol::new(Symbology::Pharmacode, segs, SymbolMeta::Pharmacode(PharmacodeMeta)))
    }

    /// Build a two-track symbol for `value` (`4..=64570080`).
    pub fn build_two_track(&self, value: u32) -> (r: Result<Symbol, Error>)
        ensures
            r is Ok <==> two_track_range(value as int),
            r matches Ok(s) ==> s.symbology == Symbology::PharmacodeTwoTrack && s.segments@.len() == 1
                && s.segments@[0].mode == Mode::Numeric && s.segments@[0].data@ == dec_string(value as nat)
                && s.meta == SymbolMeta::Pharmacode(PharmacodeMeta),
            r is Err ==> r == Err::<Symbol, Error>(Error::Capacity),
    {
        if !(4 <= value && value <= 64570080) {
            return Err(Error::Capacity);
        }
        let mut segs: Vec<Segment> = Vec::new();
        segs.push(Segment::numeric(u32_to_decimal(value)));
        Ok(Symbol::new(Symbology::PharmacodeTwoTrack, segs, SymbolMeta::Pharmacode(PharmacodeMeta)))
    }

    /// Encode a Pharmacode symbol.
    pub fn encode(&self, symbol: &Symbol) -> (r: Result<Encoding, Error>)
        ensures
            !parses_u32(payload_of(symbol.segments@)) ==> r == Err::<Encoding, Error>(Error::InvalidData),
            r is Ok <==> parses_u32(payload_of(symbol.segments@)) && symbol.meta is Pharmacode && (
                (symbol.symbology == Symbology::Pharmacode && one_track_range(parsed_u32(payload_of(symbol.segments@))))
                || (symbol.symbology == Symbology::PharmacodeTwoTrack && two_track_range(parsed_u32(payload_of(symbol.segments@))))),
            r matches Ok(e) ==> e matches Encoding::Linear(p) && p.quiet_zone == QUIET_ZONE && p.modules@ == pharma_modules(
                parsed_u32(payload_of(symbol.segments@)) as nat, symbol.symbology == Symbology::PharmacodeTwoTrack),
    {
        let payload = symbol.payload_bytes();
        let value = match parse_value(payload.as_slice()) {
            Ok(v) => v,
            Err(e) => {
                return Err(e);
            },
        };
        let bars = if symbol.symbology == Symbology::Pharmacode {
            if !(3 <= value && value <= 131070) {
                return Err(Error::Capacity);
            }
            one_track_bars(value)
        } else if symbol.symbology == Symbology::PharmacodeTwoTrack {
            if !(4 <= value && value <= 64570080) {
                return Err(Error::Capacity);
            }
            two_track_bars(value)
        } else {
            return Err(Error::InvalidParameter);
        };
        if !matches!(symbol.meta, SymbolMeta::Pharmacode(_)) {
            return Err(Error::InvalidParameter);
        }
        Ok(Encoding::Linear(LinearPattern { modules: render_bars(bars.as_slice()), quiet_zone: QUIET_ZONE }))
    }
}

/// Pharmacode decoder.
#[derive(Debug, Default, Clone, Copy)]
pub struct PharmacodeDecoder {
    /// Whether bars are read as two-track ternary digits.
    pub two_track: bool,
}

impl PharmacodeDecoder {
    /// A new one-track decoder.
    pub fn new() -> (d: Self)
        ensures
            !d.two_track,
    {
        PharmacodeDecoder { two_track: false }
    }

    /// A two-track decoder (interprets bar widths 1/2/3 as ternary digits).
    pub fn two_track() -> (d: Self)
        ensures
            d.two_track,
    {
        PharmacodeDecoder { two_track: true }
    }

    /// Decode a Pharmacode module pattern.
    pub fn decode(&self, encoding: &Encoding) -> (r: Result<Symbol, Error>)
        requires
            encoding matches Encoding::Linear(p) ==> p.modules@.len() <= u32::MAX,
        ensures
            encoding is Matrix ==> r == Err::<Symbol, Error>(Error::InvalidParameter),
            r matches Ok(s) ==> {
                &&& s.symbology == (if self.two_track { Symbology::PharmacodeTwoTrack } else { Symbology::Pharmacode })
                &&& s.meta == SymbolMeta::Pharmacode(PharmacodeMeta)
                &&& s.segments@.len() == 1
                &&& s.segments@[0].mode == Mode::Numeric
                &&& exists|v: nat| #![trigger dec_string(v)] s.segments@[0].data@ == dec_string(v) && (if self.two_track {
                    two_track_range(v as int)
                } else {
                    one_track_range(v as int)
                })
            },
            forall|v: nat|
                #![trigger pharma_modules(v, self.two_track)]
                encoding matches Encoding::Linear(p) && (if self.two_track { two_track_range(v as int) } else { one_track_range(v as int) })
                    && p.modules@ == pharma_modules(v, self.two_track) ==> (r matches Ok(s) && s.segments@[0].data@ == dec_string(v)),
    {
        let pattern = match encoding {
            Encoding::Linear(p) => p,
            Encoding::Matrix(_) => {
                return Err(Error::InvalidParameter);
            },
        };
        let ghost m = pattern.modules@;
        let ghost tt = self.two_track;
        let bars = match bar_widths(pattern.modules.as_slice()) {
            Ok(b) => b,
            Err(e) => {
                proof {
                    assert forall|v: nat| (if tt { two_track_range(v as int) } else { one_track_range(v as int) })
                        && m == #[trigger] pharma_modules(v, tt) implies false by {
                        let ws = if tt { two_track_spec(v) } else { one_track_spec(v) };
                        lemma_spec_bars(v, tt);
                        assert(expand(with_gaps(ws)) == m);
                    }
                }
                return Err(e);
            },
        };
        proof {
            assert forall|v: nat| (if tt { two_track_range(v as int) } else { one_track_range(v as int) })
                && m == #[trigger] pharma_modules(v, tt) implies widths(bars@) == (if tt { two_track_spec(v) } else { one_track_spec(v) }) by {
                lemma_spec_bars(v, tt);
            }
        }
        let value = if self.two_track {
            match two_track_value(bars.as_slice()) {
                Ok(v) => v,
                Err(e) => {
                    proof {
                        assert forall|v: nat| two_track_range(v as int) && m == #[trigger] pharma_modules(v, tt) implies false by {
                            lemma_spec_bars(v, tt);
                            lemma_two_track_value(v);
                            assert(widths(bars@) == two_track_spec(v));
                            assert forall|i: int| 0 <= i < bars@.len() implies 1 <= #[trigger] bars@[i] <= 3 by {
                                assert(widths(bars@)[i] == two_track_spec(v)[i]);
                            }
                        }
                    }
                    return Err(e);
                },
            }
        } else {
            match one_track_value(bars.as_slice()) {
                Ok(v) => v,
                Err(e) => {
                    proof {
                        assert forall|v: nat| one_track_range(v as int) && m == #[trigger] pharma_modules(v, tt) implies false by {
                            lemma_spec_bars(v, tt);
                            lemma_one_track_value(v);
                        }
                    }
                    return Err(e);
                },
            }
        };
        proof {
            assert forall|v: nat| (if tt { two_track_range(v as int) } else { one_track_range(v as int) })
                && m == #[trigger] pharma_modules(v, tt) implies value == v by {
                lemma_spec_bars(v, tt);
                lemma_one_track_value(v);
                lemma_two_track_value(v);
            }
        }
        let in_range = if self.two_track {
            4 <= value && value <= 64570080
        } else {
            3 <= value && value <= 131070
        };
        if !in_range {
            return Err(Error::Undecodable);
        }
        let symbology = if self.two_track { Symbology::PharmacodeTwoTrack } else { Symbology::Pharmacode };
        let mut segs: Vec<Segment> = Vec::new();
        segs.push(Segment::numeric(u32_to_decimal(value)));
        let s = Symbol::new(symbology, segs, SymbolMeta::Pharmacode(PharmacodeMeta));
        proof {
            assert(s.segments@[0].data@ == dec_string(value as nat));
        }
        Ok(s)
    }
}

/// The bars a value is drawn with are positive, non-empty for a positive value,
/// and re-read by [`bar_widths`].
proof fn lemma_spec_bars(v: nat, two_track: bool)
    requires
        v >= 1,
    ensures
        ({
            let ws = if two_track { two_track_spec(v) } else { one_track_spec(v) };
            &&& ws.len() >= 1
            &&& positive_runs(ws)
        }),
{
    lemma_one_track_value(v);
    lemma_two_track_value(v);
    let ws = if two_track { two_track_spec(v) } else { one_track_spec(v) };
    if two_track {
        assert(ws.len() >= 1) by {
            if v % 3 == 0 {
                assert(two_track_spec(v) == two_track_spec((v / 3 - 1) as nat).push(3));
            } else {
                assert(two_track_spec(v) == two_track_spec(v / 3).push((v % 3) as int));
            }
        }
    } else {
        assert(ws.len() >= 1) by {
            if v % 2 == 1 {
                assert(one_track_spec(v) == one_track_spec(((v - 1) / 2) as nat).push(1));
            } else {
                assert(one_track_spec(v) == one_track_spec(((v - 2) / 2) as nat).push(3));
            }
        }
    }
    assert forall|i: int| 0 <= i < ws.len() implies #[trigger] ws[i] >= 1 by {
        if two_track {
            assert(1 <= two_track_spec(v)[i]);
        } else {
            assert(one_track_spec(v)[i] == 1 || one_track_spec(v)[i] == 3);
        }
    }
}

} // verus!
