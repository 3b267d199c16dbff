//! Interleaved 2 of 5 (ITF, ISO/IEC 16390).
//!
//! ITF is a continuous, self-checking numeric symbology that packs two digits
//! into one character: the five bars carry the first digit of a pair and the five
//! interleaved spaces carry the second. Each digit is one of the "two-of-five"
//! patterns (exactly two of the five elements are wide).
//!
//! A narrow element is one module; a wide element is `WIDE` modules. ITF requires an
//! even number of encoded digits (including the optional mod-10 check digit); the
//! caller pads with a leading zero if needed.
use vstd::prelude::*;
use crate::error::Error;
use crate::output::{Encoding, LinearPattern, expand, positive_runs, widths, runs_of, lemma_expand_unique};
use crate::segment::{Segment, Mode, payload_of, copy_bytes};
use crate::symbol::{Symbol, SymbolMeta};
use crate::symbology::Symbology;

verus! {

/// Module width of a narrow element.
const NARROW: u32 = 1;
/// Module width of a wide element (3:1 ratio).
pub const WIDE: u32 = 3;
/// Quiet-zone width in narrow modules on each side.
pub const QUIET_ZONE: usize = 10;

/// Two-of-five element widths of digit `d` (1-2-4-7-parity weighting).
pub open spec fn digit_widths_spec(d: int) -> Seq<u32> {
    if d == 0 {
        seq![1u32, 1, 3, 3, 1]
    } else if d == 1 {
        seq![3u32, 1, 1, 1, 3]
    } else if d == 2 {
        seq![1u32, 3, 1, 1, 3]
    } else if d == 3 {
        seq![3u32, 3, 1, 1, 1]
    } else if d == 4 {
        seq![1u32, 1, 3, 1, 3]
    } else if d == 5 {
        seq![3u32, 1, 3, 1, 1]
    } else if d == 6 {
        seq![1u32, 3, 3, 1, 1]
    } else if d == 7 {
        seq![1u32, 1, 1, 3, 3]
    } else if d == 8 {
        seq![3u32, 1, 1, 3, 1]
    } else {
        seq![1u32, 3, 1, 3, 1]
    }
}

/// Element widths of digit `d`.
fn digit_widths(d: usize) -> (w: [u32; 5])
    requires
        d < 10,
    ensures
        w@ == digit_widths_spec(d as int),
{
    let w = match d {
        0 => [1, 1, 3, 3, 1],
        1 => [3, 1, 1, 1, 3],
        2 => [1, 3, 1, 1, 3],
        3 => [3, 3, 1, 1, 1],
        4 => [1, 1, 3, 1, 3],
        5 => [3, 1, 3, 1, 1],
        6 => [1, 3, 3, 1, 1],
        7 => [1, 1, 1, 3, 3],
        8 => [3, 1, 1, 3, 1],
        _ => [1, 3, 1, 3, 1],
    };
    proof {
        assert(w@ =~= digit_widths_spec(d as int));
    }
    w
}

/// Parameters required to re-encode an Interleaved 2 of 5 symbol identically.
#[derive(Debug, Clone, Copy, PartialEq, Eq, Default, Structural)]
pub struct ItfMeta {
    /// Whether a trailing mod-10 check digit is present.
    pub check: bool,
}

/// Every byte is an ASCII digit.
pub open spec fn is_digits(s: Seq<u8>) -> bool {
    forall|i: int| 0 <= i < s.len() ==> 48 <= #[trigger] s[i] <= 57
}

/// `Σ w_j · digit`, over the last `i` digits of `s`, weights 3, 1, 3, … from the right.
pub open spec fn gtin_sum(s: Seq<u8>, i: nat) -> int
    decreases i,
{
    if i == 0 {
        0
    } else {
        gtin_sum(s, (i - 1) as nat) + (if (i - 1) % 2 == 0 { 3int } else { 1int }) * (s[s.len() - i] - 48)
    }
}

/// The mod-10 (3-1 weighted, GTIN-style) check digit of `s`.
pub open spec fn mod10_spec(s: Seq<u8>) -> int {
    (10 - gtin_sum(s, s.len()) % 10) % 10
}

/// The mod-10 (3-1 weighted, GTIN-style) check digit for ASCII `digits`.
pub fn mod10(digits: &[u8]) -> (c: u8)
    requires
        is_digits(digits@),
        digits@.len() <= 0x07ff_ffff,
    ensures
        c == mod10_spec(digits@),
        c < 10,
{
    let n = digits.len();
    let mut sum: u32 = 0;
    let mut i: usize = 0;
    while i < n
        invariant
            i <= n,
            n == digits@.len(),
            n <= 0x07ff_ffff,
            is_digits(digits@),
            sum == gtin_sum(digits@, i as nat),
            sum <= 27 * i,
        decreases n - i,
    {
        assert(48 <= digits@[n - 1 - i] <= 57);
        let v = (digits[n - 1 - i] - 48u8) as u32;
        sum = sum + if i % 2 == 0 { v * 3 } else { v };
        i = i + 1;
    }
    ((10 - sum % 10) % 10) as u8
}

/// The digits actually drawn: the payload, then the check digit if requested.
pub open spec fn drawn_digits(digits: Seq<u8>, check: bool) -> Seq<u8> {
    if check {
        digits.push((48 + mod10_spec(digits)) as u8)
    } else {
        digits
    }
}

/// The payload ITF accepts, with or without a check digit.
pub open spec fn itf_valid(digits: Seq<u8>, check: bool) -> bool {
    &&& digits.len() > 0
    &&& is_digits(digits)
    &&& (digits.len() + (if check { 1int } else { 0int })) % 2 == 0
}

/// Runs of one digit pair: bar widths from `a`, interleaved with space widths from `b`.
pub open spec fn pair_runs(a: int, b: int) -> Seq<int> {
    Seq::new(10, |j: int| if j % 2 == 0 { digit_widths_spec(a)[j / 2] as int } else { digit_widths_spec(b)[j / 2] as int })
}

/// Runs of all digit pairs, left to right.
pub open spec fn pairs_runs(ds: Seq<u8>) -> Seq<int>
    decreases ds.len(),
{
    if ds.len() < 2 {
        Seq::empty()
    } else {
        pairs_runs(ds.take(ds.len() - 2)) + pair_runs(ds[ds.len() - 2] - 48, ds[ds.len() - 1] - 48)
    }
}

/// The full run sequence of an ITF symbol drawing `ds`: start, pairs, stop.
pub open spec fn itf_runs(ds: Seq<u8>) -> Seq<int> {
    seq![1int, 1, 1, 1] + pairs_runs(ds) + seq![3int, 1, 1]
}

/// The modules an ITF symbol for `digits` consists of.
pub open spec fn itf_modules(digits: Seq<u8>, check: bool) -> Seq<bool> {
    expand(itf_runs(drawn_digits(digits, check)))
}

/// Validate that `digits` is a non-empty string of ASCII digits.
fn ensure_digits(digits: &[u8]) -> (r: Result<(), Error>)
    ensures
        r is Ok <==> digits@.len() > 0 && is_digits(digits@),
        r is Err ==> r == Err::<(), Error>(Error::InvalidData),
{
    if digits.len() == 0 {
        return Err(Error::InvalidData);
    }
    let mut i: usize = 0;
    while i < digits.len()
        invariant
            i <= digits@.len(),
            forall|j: int| 0 <= j < i ==> 48 <= #[trigger] digits@[j] <= 57,
        decreases digits@.len() - i,
    {
        if !(digits[i] >= 48u8 && digits[i] <= 57u8) {
            return Err(Error::InvalidData);
        }
        i = i + 1;
    }
    Ok(())
}

/// Interleaved 2 of 5 encoder.
#[derive(Debug, Default, Clone, Copy)]
pub struct ItfEncoder;

impl ItfEncoder {
    /// A new encoder.
    pub fn new() -> (e: Self) {
        ItfEncoder
    }

    /// Number of modules [`ItfEncoder::encode_into`] emits for `data_len` payload
    /// digits, excluding quiet zones (exact).
    pub fn max_modules(data_len: usize, meta: &ItfMeta) -> (n: usize)
        requires
            data_len <= 0x07ff_ffff,
        ensures
            n == 4 + 9 * (data_len + (if meta.check { 1int } else { 0int })) + 5,
    {
        4 + 9 * (data_len + if meta.check { 1 } else { 0 }) + 5
    }
}

/// Append `width` copies of `bar` to `out`.
fn push_run(out: &mut LinearPattern, bar: bool, width: u32)
    ensures
        final(out).modules@ == old(out).modules@ + crate::output::run_of(bar, width as nat),
        final(out).quiet_zone == old(out).quiet_zone,
{
    out.push_run(bar, width as usize)
}


/// Expanding one more run appends that run in the colour its position dictates.
proof fn lemma_expand_push(r: Seq<int>, w: int)
    ensures
        expand(r.push(w)) == expand(r) + crate::output::run_of(r.len() % 2 == 0, w as nat),
{
    assert(r.push(w).drop_last() =~= r);
}

/// Pair runs of a prefix grow by one pair per two digits.
proof fn lemma_pairs_step(ds: Seq<u8>, p: int)
    requires
        0 <= p,
        2 * p + 2 <= ds.len(),
    ensures
        pairs_runs(ds.take(2 * p + 2)) == pairs_runs(ds.take(2 * p)) + pair_runs(ds[2 * p] - 48, ds[2 * p + 1] - 48),
{
    let t = ds.take(2 * p + 2);
    assert(t.take(t.len() - 2) =~= ds.take(2 * p));
    assert(t[t.len() - 2] == ds[2 * p]);
    assert(t[t.len() - 1] == ds[2 * p + 1]);
}

/// Length and indexing of the pair runs of an even-length digit string.
proof fn lemma_pairs_index(ds: Seq<u8>)
    requires
        ds.len() % 2 == 0,
    ensures
        pairs_runs(ds).len() == 5 * ds.len(),
        forall|g: int, j: int|
            0 <= g < ds.len() / 2 && 0 <= j < 10 ==> #[trigger] pairs_runs(ds)[10 * g + j]
                == pair_runs(ds[2 * g] - 48, ds[2 * g + 1] - 48)[j],
    decreases ds.len(),
{
    if ds.len() >= 2 {
        let pre = ds.take(ds.len() - 2);
        lemma_pairs_index(pre);
        assert forall|g: int, j: int|
            0 <= g < ds.len() / 2 && 0 <= j < 10 implies #[trigger] pairs_runs(ds)[10 * g + j]
                == pair_runs(ds[2 * g] - 48, ds[2 * g + 1] - 48)[j] by {
            if g < pre.len() / 2 {
                assert(pairs_runs(pre)[10 * g + j] == pair_runs(pre[2 * g] - 48, pre[2 * g + 1] - 48)[j]);
            } else {
                assert(g == pre.len() / 2);
            }
        }
    }
}

/// The digits to draw: `digits`, then the check digit if `check`.
fn drawn(digits: &[u8], check: bool) -> (all: Vec<u8>)
    requires
        itf_valid(digits@, check),
        digits@.len() <= 0x07ff_ffff,
    ensures
        all@ == drawn_digits(digits@, check),
        is_digits(all@),
        all@.len() % 2 == 0,
{
    let mut all: Vec<u8> = Vec::new();
    let mut i: usize = 0;
    while i < digits.len()
        invariant
            i <= digits@.len(),
            all@ == digits@.take(i as int),
        decreases digits@.len() - i,
    {
        all.push(digits[i]);
        i = i + 1;
        proof {
            assert(all@ =~= digits@.take(i as int));
        }
    }
    proof {
        assert(digits@.take(digits@.len() as int) =~= digits@);
    }
    if check {
        let c = mod10(digits);
        all.push(48u8 + c);
    }
    proof {
        assert(all@ =~= drawn_digits(digits@, check));
        assert forall|j: int| 0 <= j < all@.len() implies 48 <= #[trigger] all@[j] <= 57 by {
            if j < digits@.len() {
                assert(all@[j] == digits@[j]);
            }
        }
    }
    all
}

/// Append the ten runs of the digit pair `(a, b)`.
fn emit_pair(out: &mut LinearPattern, a: usize, b: usize, Ghost(runs): Ghost<Seq<int>>)
    requires
        a < 10,
        b < 10,
        runs.len() % 2 == 0,
        old(out).modules@ == expand(runs),
    ensures
        final(out).modules@ == expand(runs + pair_runs(a as int, b as int)),
        final(out).quiet_zone == old(out).quiet_zone,
{
    let wa = digit_widths(a);
    let wb = digit_widths(b);
    let ghost mut cur = runs;
    let mut e: usize = 0;
    while e < 5
        invariant
            e <= 5,
            a < 10,
            b < 10,
            wa@ == digit_widths_spec(a as int),
            wb@ == digit_widths_spec(b as int),
            cur == runs + pair_runs(a as int, b as int).take(2 * e as int),
            runs.len() % 2 == 0,
            out.modules@ == expand(cur),
            out.quiet_zone == old(out).quiet_zone,
        decreases 5 - e,
    {
        proof {
            lemma_expand_push(cur, wa[e as int] as int);
            lemma_expand_push(cur.push(wa[e as int] as int), wb[e as int] as int);
        }
        push_run(out, true, wa[e]);
        push_run(out, false, wb[e]);
        proof {
            cur = cur.push(wa[e as int] as int).push(wb[e as int] as int);
            assert(cur =~= runs + pair_runs(a as int, b as int).take(2 * (e + 1)));
        }
        e = e + 1;
    }
    proof {
        assert(pair_runs(a as int, b as int).take(10) =~= pair_runs(a as int, b as int));
    }
}

/// Heap-free encoding: write the symbol for ASCII `digits` under `meta` to `out`.
impl ItfEncoder {
    /// Write the symbol for ASCII `digits` under `meta` to `out`.
    ///
    /// `digits` must be non-empty ASCII digits whose count (plus the check digit, if
    /// `meta.check`) is even. The input is validated before the first module is
    /// written.
    pub fn encode_into(&self, digits: &[u8], meta: &ItfMeta, out: &mut LinearPattern) -> (r: Result<(), Error>)
        requires
            digits@.len() <= 0x07ff_ffff,
        ensures
            r is Ok <==> itf_valid(digits@, meta.check),
            r is Ok ==> final(out).modules@ == itf_modules(digits@, meta.check) && final(out).quiet_zone == QUIET_ZONE,
            r is Err ==> r == Err::<(), Error>(Error::InvalidData) && *final(out) == *old(out),
    {
        let v = ensure_digits(digits);
        if v.is_err() {
            return Err(Error::InvalidData);
        }
        let total = digits.len() + if meta.check { 1 } else { 0 };
        if total % 2 != 0 {
            return Err(Error::InvalidData);
        }
        let all = drawn(digits, meta.check);
        let ghost ds = all@;
        out.begin(QUIET_ZONE);
        let ghost mut runs: Seq<int> = Seq::empty();
        proof {
            assert(out.modules@ =~= expand(runs));
        }
        // Start pattern: narrow bar, narrow space, narrow bar, narrow space.
        let mut s: usize = 0;
        while s < 2
            invariant
                s <= 2,
                runs =~= Seq::new(2 * s as nat, |_j: int| 1int),
                out.modules@ == expand(runs),
                out.quiet_zone == QUIET_ZONE,
            decreases 2 - s,
        {
            proof {
                lemma_expand_push(runs, 1);
                lemma_expand_push(runs.push(1), 1);
            }
            push_run(out, true, NARROW);
            push_run(out, false, NARROW);
            proof {
                runs = runs.push(1).push(1);
            }
            s = s + 1;
        }
        proof {
            assert(runs =~= seq![1int, 1, 1, 1]);
            assert(pairs_runs(ds.take(0)) =~= Seq::<int>::empty()) by {
                assert(ds.take(0).len() == 0);
            }
        }
        // Interleaved digit pairs: bars from the first digit, spaces from the second.
        let pairs = all.len() / 2;
        let mut p: usize = 0;
        while p < pairs
            invariant
                all@ == ds,
                is_digits(ds),
                ds.len() % 2 == 0,
                pairs == ds.len() / 2,
                ds.len() == all.len(),
                p <= pairs,
                runs == seq![1int, 1, 1, 1] + pairs_runs(ds.take(2 * p as int)),
                runs.len() == 4 + 10 * p,
                out.modules@ == expand(runs),
                out.quiet_zone == QUIET_ZONE,
            decreases pairs - p,
        {
            assert(2 * p + 1 < ds.len());
            assert(48 <= ds[2 * p as int] <= 57);
            assert(48 <= ds[2 * p + 1] <= 57);
            let a = (all[2 * p] - 48u8) as usize;
            let b = (all[2 * p + 1] - 48u8) as usize;
            emit_pair(out, a, b, Ghost(runs));
            proof {
                lemma_pairs_step(ds, p as int);
                runs = runs + pair_runs(a as int, b as int);
                assert(runs =~= seq![1int, 1, 1, 1] + pairs_runs(ds.take(2 * (p + 1))));
            }
            p = p + 1;
        }
        // Stop pattern: wide bar, narrow space, narrow bar.
        proof {
            assert(ds.take(2 * pairs as int) =~= ds);
            lemma_pairs_index(ds);
            lemma_expand_push(runs, 3);
            lemma_expand_push(runs.push(3), 1);
            lemma_expand_push(runs.push(3).push(1), 1);
        }
        push_run(out, true, WIDE);
        push_run(out, false, NARROW);
        push_run(out, true, NARROW);
        proof {
            assert(runs.push(3).push(1).push(1) =~= itf_runs(ds));
        }
        Ok(())
    }
}


impl ItfEncoder {
    /// Build a symbol from `digits`, optionally appending a mod-10 check digit.
    ///
    /// Returns [`Error::InvalidData`] if the resulting digit count (including the
    /// check digit) is odd, since ITF encodes digits in pairs.
    pub fn build(&self, digits: &[u8], check: bool) -> (r: Result<Symbol, Error>)
        ensures
            r is Ok <==> itf_valid(digits@, check),
            r matches Ok(s) ==> {
                &&& s.symbology == Symbology::Itf
                &&& s.segments@.len() == 1
                &&& s.segments@[0].mode == Mode::Numeric
                &&& s.segments@[0].data@ == digits@
                &&& s.meta == SymbolMeta::Itf(ItfMeta { check })
            },
            r is Err ==> r == Err::<Symbol, Error>(Error::InvalidData),
    {
        let v = ensure_digits(digits);
        if v.is_err() {
            return Err(Error::InvalidData);
        }
        if (digits.len() % 2 == 0) == check {
            return Err(Error::InvalidData);
        }
        let mut segs: Vec<Segment> = Vec::new();
        segs.push(Segment::numeric(copy_bytes(digits)));
        Ok(Symbol::new(Symbology::Itf, segs, SymbolMeta::Itf(ItfMeta { check })))
    }

    /// Encode an ITF symbol into its module pattern.
    pub fn encode(&self, symbol: &Symbol) -> (r: Result<Encoding, Error>)
        requires
            payload_of(symbol.segments@).len() <= 0x07ff_ffff,
        ensures
            symbol.symbology != Symbology::Itf ==> r == Err::<Encoding, Error>(Error::InvalidParameter),
            symbol.symbology == Symbology::Itf ==> match symbol.meta {
                SymbolMeta::Itf(m) => {
                    &&& (r is Ok <==> itf_valid(payload_of(symbol.segments@), m.check))
                    &&& (r is Err ==> r == Err::<Encoding, Error>(Error::InvalidData))
                    &&& (r matches Ok(Encoding::Linear(p)) && p.modules@ == itf_modules(payload_of(symbol.segments@), m.check)
                        && p.quiet_zone == QUIET_ZONE || r is Err)
                },
                _ => r == Err::<Encoding, Error>(Error::InvalidParameter),
            },
    {
        if symbol.symbology != Symbology::Itf {
            return Err(Error::InvalidParameter);
        }
        let meta = match &symbol.meta {
            SymbolMeta::Itf(m) => m,
            #[allow(unreachable_patterns)]
            _ => {
                return Err(Error::InvalidParameter);
            },
        };
        let mut pattern = LinearPattern::new();
        let payload = symbol.payload_bytes();
        match self.encode_into(payload.as_slice(), meta, &mut pattern) {
            Ok(()) => Ok(Encoding::Linear(pattern)),
            Err(e) => Err(e),
        }
    }
}

/// Interleaved 2 of 5 decoder.
#[derive(Debug, Default, Clone, Copy)]
pub struct ItfDecoder {
    /// Whether a trailing mod-10 check digit is expected (and verified/stripped).
    pub check: bool,
}

impl ItfDecoder {
    /// A new decoder that treats all decoded digits as payload.
    pub fn new() -> (d: Self)
        ensures
            !d.check,
    {
        ItfDecoder { check: false }
    }

    /// A decoder that expects, verifies and strips a trailing mod-10 check digit.
    pub fn with_check(check: bool) -> (d: Self)
        ensures
            d.check == check,
    {
        ItfDecoder { check }
    }
}

/// Run-length encode `modules` into element widths, starting with a bar.
pub fn rle(modules: &[bool]) -> (r: Result<Vec<u32>, Error>)
    requires
        modules@.len() <= u32::MAX,
    ensures
        r is Ok <==> modules@.len() > 0 && modules@[0],
        r matches Ok(runs) ==> positive_runs(widths(runs@)) && expand(widths(runs@)) == modules@,
        r is Err ==> r == Err::<Vec<u32>, Error>(Error::Undecodable),
{
    if modules.len() == 0 || !modules[0] {
        return Err(Error::Undecodable);
    }
    Ok(runs_of(modules))
}

/// `w` has its wide elements exactly where digit `d`'s pattern has them.
pub open spec fn wide_match(w: Seq<u32>, d: int) -> bool {
    forall|e: int| 0 <= e < 5 ==> (#[trigger] w[e] > 1) == (digit_widths_spec(d)[e] > 1)
}

/// The ten wide/narrow patterns are pairwise distinct.
proof fn lemma_widths_distinct(a: int, d: int)
    requires
        0 <= a < 10,
        0 <= d < 10,
        wide_match(digit_widths_spec(a), d),
    ensures
        a == d,
{
    let wa = digit_widths_spec(a);
    assert((wa[0] > 1) == (digit_widths_spec(d)[0] > 1));
    assert((wa[1] > 1) == (digit_widths_spec(d)[1] > 1));
    assert((wa[2] > 1) == (digit_widths_spec(d)[2] > 1));
    assert((wa[3] > 1) == (digit_widths_spec(d)[3] > 1));
    assert((wa[4] > 1) == (digit_widths_spec(d)[4] > 1));
}

/// Recover a digit from a 5-element width pattern (wide = width > 1).
pub fn digit_from_widths(w: &[u32]) -> (r: Result<u8, Error>)
    requires
        w@.len() == 5,
    ensures
        r matches Ok(d) ==> d < 10 && wide_match(w@, d as int) && forall|d2: int| 0 <= d2 < d ==> !wide_match(w@, d2),
        r is Err ==> r == Err::<u8, Error>(Error::Undecodable) && forall|d2: int| 0 <= d2 < 10 ==> !wide_match(w@, d2),
{
    let mut d: usize = 0;
    while d < 10
        invariant
            d <= 10,
            w@.len() == 5,
            forall|d2: int| 0 <= d2 < d ==> !wide_match(w@, d2),
        decreases 10 - d,
    {
        let pat = digit_widths(d);
        let mut e: usize = 0;
        let mut ok = true;
        while e < 5
            invariant
                e <= 5,
                w@.len() == 5,
                pat@ == digit_widths_spec(d as int),
                ok <==> forall|e2: int| 0 <= e2 < e ==> (w@[e2] > 1) == (pat@[e2] > 1),
            decreases 5 - e,
        {
            if (w[e] > 1) != (pat[e] > 1) {
                ok = false;
            }
            e = e + 1;
        }
        if ok {
            return Ok(d as u8);
        }
        d = d + 1;
    }
    Err(Error::Undecodable)
}

/// `modules` is exactly what the encoder draws for `ds` under `check`.
pub open spec fn itf_premise(modules: Seq<bool>, ds: Seq<u8>, check: bool) -> bool {
    itf_valid(ds, check) && modules == itf_modules(ds, check)
}

/// Shape of the run sequence of a valid symbol.
proof fn lemma_itf_shape(ds: Seq<u8>, check: bool)
    requires
        itf_valid(ds, check),
    ensures
        ({
            let all = drawn_digits(ds, check);
            let r = itf_runs(all);
            &&& is_digits(all)
            &&& all.len() % 2 == 0
            &&& all.len() >= 2
            &&& r.len() == 7 + 5 * all.len()
            &&& positive_runs(r)
            &&& r[0] == 1 && r[1] == 1 && r[2] == 1 && r[3] == 1
            &&& r[r.len() - 3] == 3 && r[r.len() - 2] == 1 && r[r.len() - 1] == 1
            &&& forall|g: int, j: int|
                0 <= g < all.len() / 2 && 0 <= j < 10 ==> #[trigger] r[4 + 10 * g + j]
                    == pair_runs(all[2 * g] - 48, all[2 * g + 1] - 48)[j]
        }),
{
    let all = drawn_digits(ds, check);
    let r = itf_runs(all);
    assert forall|j: int| 0 <= j < all.len() implies 48 <= #[trigger] all[j] <= 57 by {
        if j < ds.len() {
            assert(all[j] == ds[j]);
        }
    }
    lemma_pairs_index(all);
    let pr = pairs_runs(all);
    assert forall|g: int, j: int|
        0 <= g < all.len() / 2 && 0 <= j < 10 implies #[trigger] r[4 + 10 * g + j]
            == pair_runs(all[2 * g] - 48, all[2 * g + 1] - 48)[j] by {
        assert(r[4 + 10 * g + j] == pr[10 * g + j]);
    }
    assert forall|i: int| 0 <= i < r.len() implies #[trigger] r[i] >= 1 by {
        if 4 <= i < 4 + pr.len() {
            let g = (i - 4) / 10;
            let j = (i - 4) % 10;
            assert(i == 4 + 10 * g + j);
            let a = all[2 * g] - 48;
            let b = all[2 * g + 1] - 48;
            assert(0 <= a < 10 && 0 <= b < 10);
            assert(r[4 + 10 * g + j] == pair_runs(a, b)[j]);
        }
    }
}

impl ItfDecoder {
    /// Decode an ITF module pattern.
    pub fn decode(&self, encoding: &Encoding) -> (r: Result<Symbol, Error>)
        requires
            encoding matches Encoding::Linear(p) ==> p.modules@.len() <= 0x2000_0000,
        ensures
            encoding is Matrix ==> r == Err::<Symbol, Error>(Error::InvalidParameter),
            r matches Ok(s) ==> {
                &&& s.symbology == Symbology::Itf
                &&& s.meta == SymbolMeta::Itf(ItfMeta { check: self.check })
                &&& s.segments@.len() == 1
                &&& s.segments@[0].mode == Mode::Numeric
                &&& is_digits(s.segments@[0].data@)
            },
            forall|ds: Seq<u8>|
                #![trigger itf_valid(ds, self.check)]
                encoding matches Encoding::Linear(p) && itf_premise(p.modules@, ds, self.check) ==> (r matches Ok(s)
                    && s.segments@[0].data@ == ds),
    {
        let pattern = match encoding {
            Encoding::Linear(p) => p,
            Encoding::Matrix(_) => {
                return Err(Error::InvalidParameter);
            },
        };
        let ghost m = pattern.modules@;
        let ghost chk = self.check;
        let runs = match rle(pattern.modules.as_slice()) {
            Ok(r) => r,
            Err(e) => {
                proof {
                    assert forall|ds: Seq<u8>| itf_premise(m, ds, chk) implies false by {
                        lemma_itf_shape(ds, chk);
                        let rr = itf_runs(drawn_digits(ds, chk));
                        assert(expand(rr) == m);
                        assert(rr[0] >= 1);
                        assert(expand(rr).len() > 0 && expand(rr)[0]) by {
                            lemma_expand_prefix(rr);
                        }
                    }
                }
                return Err(e);
            },
        };
        let ghost rs = widths(runs@);
        proof {
            crate::output::lemma_runs_le_len(rs);
            assert forall|ds: Seq<u8>| itf_premise(m, ds, chk) implies rs == itf_runs(drawn_digits(ds, chk)) by {
                lemma_itf_shape(ds, chk);
                lemma_expand_unique(rs, itf_runs(drawn_digits(ds, chk)));
            }
        }
        let n = runs.len();
        // start(4) + stop(3) + N*10, N >= 1.
        if n < 17 || (n - 7) % 10 != 0 {
            proof {
                assert forall|ds: Seq<u8>| itf_premise(m, ds, chk) implies false by {
                    lemma_itf_shape(ds, chk);
                }
            }
            return Err(Error::Undecodable);
        }
        // Start: four narrow elements.
        if runs[0] > 1 || runs[1] > 1 || runs[2] > 1 || runs[3] > 1 {
            proof {
                assert forall|ds: Seq<u8>| itf_premise(m, ds, chk) implies false by {
                    lemma_itf_shape(ds, chk);
                }
            }
            return Err(Error::Undecodable);
        }
        // Stop: wide bar, narrow space, narrow bar.
        if runs[n - 3] <= 1 || runs[n - 2] > 1 || runs[n - 1] > 1 {
            proof {
                assert forall|ds: Seq<u8>| itf_premise(m, ds, chk) implies false by {
                    lemma_itf_shape(ds, chk);
                }
            }
            return Err(Error::Undecodable);
        }
        let mut digits: Vec<u8> = Vec::new();
        let pairs = (n - 7) / 10;
        let mut g: usize = 0;
        while g < pairs
            invariant
                g <= pairs,
                n == runs@.len(),
                n == 7 + 10 * pairs,
                rs == widths(runs@),
                digits@.len() == 2 * g,
                is_digits(digits@),
                encoding matches Encoding::Linear(pp) && pp.modules@ == m,
                chk == self.check,
                n <= m.len(),
                m.len() <= 0x2000_0000,
                forall|ds: Seq<u8>| #[trigger] itf_premise(m, ds, chk) ==> rs == itf_runs(drawn_digits(ds, chk)),
                forall|ds: Seq<u8>| #[trigger] itf_premise(m, ds, chk) ==> digits@ == drawn_digits(ds, chk).take(2 * g as int),
            decreases pairs - g,
        {
            let base = 4 + g * 10;
            let bars = [runs[base], runs[base + 2], runs[base + 4], runs[base + 6], runs[base + 8]];
            let spaces = [runs[base + 1], runs[base + 3], runs[base + 5], runs[base + 7], runs[base + 9]];
            let ghost dprev = digits@;
            let da = digit_from_widths(&bars);
            let a = match da {
                Ok(a) => a,
                Err(e) => {
                    proof {
                        assert forall|ds: Seq<u8>| itf_premise(m, ds, chk) implies false by {
                            lemma_group(m, ds, chk, rs, g as int, bars@, spaces@);
                            let all = drawn_digits(ds, chk);
                            assert(wide_match(bars@, all[2 * g as int] - 48));
                        }
                    }
                    return Err(e);
                },
            };
            let db = digit_from_widths(&spaces);
            let b = match db {
                Ok(b) => b,
                Err(e) => {
                    proof {
                        assert forall|ds: Seq<u8>| itf_premise(m, ds, chk) implies false by {
                            lemma_group(m, ds, chk, rs, g as int, bars@, spaces@);
                            let all = drawn_digits(ds, chk);
                            assert(wide_match(spaces@, all[2 * g + 1] - 48));
                        }
                    }
                    return Err(e);
                },
            };
            digits.push(48u8 + a);
            digits.push(48u8 + b);
            proof {
                assert forall|ds: Seq<u8>| #[trigger] itf_premise(m, ds, chk) implies digits@ == drawn_digits(ds, chk).take(2 * (g + 1)) by {
                    lemma_group(m, ds, chk, rs, g as int, bars@, spaces@);
                    let all = drawn_digits(ds, chk);
                    let x = all[2 * g as int] - 48;
                    let y = all[2 * g + 1] - 48;
                    if a as int != x {
                        if (a as int) < x {
                            lemma_widths_distinct(x, a as int);
                        } else {
                            assert(wide_match(bars@, x));
                        }
                    }
                    if b as int != y {
                        if (b as int) < y {
                            lemma_widths_distinct(y, b as int);
                        } else {
                            assert(wide_match(spaces@, y));
                        }
                    }
                    assert(digits@ =~= all.take(2 * (g + 1)));
                }
                assert forall|j: int| 0 <= j < digits@.len() implies 48 <= #[trigger] digits@[j] <= 57 by {
                    if j < dprev.len() {
                        assert(digits@[j] == dprev[j]);
                    }
                }
            }
            g = g + 1;
        }
        proof {
            assert forall|ds: Seq<u8>| #[trigger] itf_premise(m, ds, chk) implies digits@ == drawn_digits(ds, chk) by {
                lemma_itf_shape(ds, chk);
                assert(drawn_digits(ds, chk).take(2 * pairs as int) =~= drawn_digits(ds, chk));
            }
        }
        if self.check {
            let last = digits.len() - 1;
            let chk_digit = digits[last];
            let data = copy_prefix(digits.as_slice(), last);
            let c = mod10(data.as_slice());
            if chk_digit != 48u8 + c {
                proof {
                    assert forall|ds: Seq<u8>| itf_premise(m, ds, chk) implies false by {
                        assert(digits@ == drawn_digits(ds, chk));
                        assert(data@ =~= ds);
                    }
                }
                return Err(Error::Undecodable);
            }
            digits.truncate(last);
        }
        let mut segs: Vec<Segment> = Vec::new();
        segs.push(Segment::numeric(digits));
        let sym = Symbol::new(Symbology::Itf, segs, SymbolMeta::Itf(ItfMeta { check: self.check }));
        proof {
            assert forall|ds: Seq<u8>| itf_premise(m, ds, chk) implies sym.segments@[0].data@ == ds by {
                if chk {
                    assert(sym.segments@[0].data@ =~= ds);
                }
            }
        }
        Ok(sym)
    }
}

/// In a symbol drawing `ds`, the bars and spaces of pair `g` are the widths of its
/// two digits.
proof fn lemma_group(m: Seq<bool>, ds: Seq<u8>, chk: bool, rs: Seq<int>, g: int, bars: Seq<u32>, spaces: Seq<u32>)
    requires
        itf_premise(m, ds, chk),
        rs == itf_runs(drawn_digits(ds, chk)),
        0 <= g,
        rs.len() == 7 + 10 * (g + 1) || rs.len() > 7 + 10 * (g + 1),
        bars.len() == 5,
        spaces.len() == 5,
        forall|e: int| 0 <= e < 5 ==> #[trigger] bars[e] as int == rs[4 + 10 * g + 2 * e],
        forall|e: int| 0 <= e < 5 ==> #[trigger] spaces[e] as int == rs[4 + 10 * g + 2 * e + 1],
    ensures
        ({
            let all = drawn_digits(ds, chk);
            &&& 2 * g + 1 < all.len()
            &&& 48 <= all[2 * g] <= 57
            &&& 48 <= all[2 * g + 1] <= 57
            &&& bars == digit_widths_spec(all[2 * g] - 48)
            &&& spaces == digit_widths_spec(all[2 * g + 1] - 48)
        }),
{
    lemma_itf_shape(ds, chk);
    let all = drawn_digits(ds, chk);
    let x = all[2 * g] - 48;
    let y = all[2 * g + 1] - 48;
    assert forall|e2: int| 0 <= e2 < 5 implies bars[e2] == digit_widths_spec(x)[e2] by {
        assert(rs[4 + 10 * g + 2 * e2] == pair_runs(x, y)[2 * e2]);
    }
    assert forall|e2: int| 0 <= e2 < 5 implies spaces[e2] == digit_widths_spec(y)[e2] by {
        assert(rs[4 + 10 * g + (2 * e2 + 1)] == pair_runs(x, y)[2 * e2 + 1]);
        assert(4 + 10 * g + (2 * e2 + 1) == 4 + 10 * g + 2 * e2 + 1);
    }
    assert(bars =~= digit_widths_spec(x));
    assert(spaces =~= digit_widths_spec(y));
}

/// The first `n` bytes of `s`.
fn copy_prefix(s: &[u8], n: usize) -> (v: Vec<u8>)
    requires
        n <= s@.len(),
    ensures
        v@ == s@.take(n as int),
{
    let mut v: Vec<u8> = Vec::new();
    let mut i: usize = 0;
    while i < n
        invariant
            i <= n,
            n <= s@.len(),
            v@ == s@.take(i as int),
        decreases n - i,
    {
        v.push(s[i]);
        i = i + 1;
        proof {
            assert(v@ =~= s@.take(i as int));
        }
    }
    v
}

/// A positive first run makes the expansion start with a bar.
proof fn lemma_expand_prefix(r: Seq<int>)
    requires
        r.len() > 0,
        positive_runs(r),
    ensures
        expand(r).len() > 0,
        expand(r)[0],
    decreases r.len(),
{
    if r.len() == 1 {
        assert(r.drop_last() =~= Seq::<int>::empty());
        assert(expand(r.drop_last()) =~= Seq::<bool>::empty());
        assert(expand(r) =~= crate::output::run_of(true, r[0] as nat));
    } else {
        lemma_expand_prefix(r.drop_last());
    }
}

} // verus!
