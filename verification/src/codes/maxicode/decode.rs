//! MaxiCode data-codeword body → payload segments: the code-set state machine.
use vstd::prelude::*;
use crate::codes::maxicode::tables::{entry, set_entry, Cw};
use vstd::arithmetic::div_mod::lemma_div_denominator;
use crate::segment::{Mode, Segment};

verus! {

/// Segments the body decoder produces: byte runs and ECI designators (the latter
/// with no data).
pub open spec fn body_segs_ok(segs: Seq<Segment>) -> bool {
    forall|k: int| 0 <= k < segs.len() ==> #[trigger] segs[k].mode == Mode::Byte || (segs[k].mode is Eci
        && segs[k].data@.len() == 0)
}

/// The ECI assignment number at `start` and the codewords it takes: one codeword
/// below 0x20, two below 0x30, three below 0x38, else four; `None` when the body
/// ends first.
pub open spec fn eci_spec(body: Seq<u8>, start: int) -> Option<(u32, usize)> {
    let rest = body.len() - start;
    if rest < 1 {
        None
    } else {
        let c1 = body[start] as u32;
        if c1 < 0x20 {
            Some((c1, 1usize))
        } else if c1 < 0x30 {
            if rest < 2 { None } else { Some((((c1 % 16) * 64 + body[start + 1]) as u32, 2usize)) }
        } else if c1 < 0x38 {
            if rest < 3 {
                None
            } else {
                Some((((c1 % 8) * 4096 + body[start + 1] * 64 + body[start + 2]) as u32, 3usize))
            }
        } else {
            if rest < 4 {
                None
            } else {
                Some((((c1 % 4) * 262144 + body[start + 1] * 4096 + body[start + 2] * 64 + body[start + 3]) as u32, 4usize))
            }
        }
    }
}

/// Decode an ECI assignment number from the codewords at `start` (after the ECI
/// marker): `(eci, codewords consumed)`, or `None` when the body ends first.
pub fn read_eci(body: &[u8], start: usize) -> (r: Option<(u32, usize)>)
    requires
        start <= body@.len(),
    ensures
        r == eci_spec(body@, start as int),
        r matches Some((_, n)) ==> 1 <= n <= 4 && start + n <= body@.len(),
        r is None ==> start + 4 > body@.len(),
{
    let rest = body.len() - start;
    if rest < 1 {
        return None;
    }
    let c1 = body[start] as u32;
    if c1 < 0x20 {
        Some((c1, 1))
    } else if c1 < 0x30 {
        if rest < 2 {
            return None;
        }
        let c2 = body[start + 1] as u32;
        Some(((c1 % 16) * 64 + c2, 2))
    } else if c1 < 0x38 {
        if rest < 3 {
            return None;
        }
        let c2 = body[start + 1] as u32;
        let c3 = body[start + 2] as u32;
        Some(((c1 % 8) * 4096 + c2 * 64 + c3, 3))
    } else {
        if rest < 4 {
            return None;
        }
        let c2 = body[start + 1] as u32;
        let c3 = body[start + 2] as u32;
        let c4 = body[start + 3] as u32;
        Some(((c1 % 4) * 262144 + c2 * 4096 + c3 * 64 + c4, 4))
    }
}

/// `10^n`.
pub open spec fn pow10(n: nat) -> nat
    decreases n,
{
    if n == 0 {
        1
    } else {
        10 * pow10((n - 1) as nat)
    }
}

proof fn lemma_pow10_pos(n: nat)
    ensures
        pow10(n) >= 1,
    decreases n,
{
    if n > 0 {
        lemma_pow10_pos((n - 1) as nat);
    }
}

/// The ASCII decimal digits of `v`, zero-padded on the left to nine.
pub open spec fn nine_spec(v: u32) -> Seq<u8> {
    let n: nat = if v >= 1_000_000_000 { 10 } else { 9 };
    Seq::new(n, |i: int| (48 + (v as nat / pow10((n - 1 - i) as nat)) % 10) as u8)
}

/// The decimal digits of `v`, zero-padded to at least nine.
pub fn nine_digits(v: u32) -> (d: Vec<u8>)
    ensures
        d@.len() == (if v >= 1_000_000_000 { 10int } else { 9int }),
        forall|k: int| 0 <= k < d@.len() ==> 48 <= #[trigger] d@[k] <= 57,
        d@ == nine_spec(v),
{
    let n: usize = if v >= 1_000_000_000 { 10 } else { 9 };
    let mut digits: Vec<u8> = Vec::new();
    let mut x = v;
    assert(pow10(0) == 1);
    assert(v as nat / 1 == v as nat);
    let mut k: usize = 0;
    while k < n
        invariant
            k <= n,
            digits@.len() == k,
            forall|i: int| 0 <= i < k ==> 48 <= #[trigger] digits@[i] <= 57,
            forall|i: int| 0 <= i < k ==> #[trigger] digits@[i] == (48 + (v as nat / pow10(i as nat)) % 10) as u8,
            x == v as nat / pow10(k as nat),
        decreases n - k,
    {
        proof {
            lemma_pow10_pos(k as nat);
            lemma_div_denominator(v as int, pow10(k as nat) as int, 10);
            assert(pow10((k + 1) as nat) == 10 * pow10(k as nat));
            assert(pow10(k as nat) * 10 == 10 * pow10(k as nat)) by (nonlinear_arith);
        }
        digits.push(48 + (x % 10) as u8);
        x = x / 10;
        k = k + 1;
    }
    let mut out: Vec<u8> = Vec::new();
    let mut j: usize = n;
    while j > 0
        invariant
            j <= n,
            digits@.len() == n,
            out@.len() == n - j,
            forall|i: int| 0 <= i < n ==> 48 <= #[trigger] digits@[i] <= 57,
            forall|i: int| 0 <= i < out@.len() ==> 48 <= #[trigger] out@[i] <= 57,
            forall|i: int| 0 <= i < n ==> #[trigger] digits@[i] == (48 + (v as nat / pow10(i as nat)) % 10) as u8,
            n == (if v >= 1_000_000_000 { 10int } else { 9int }),
            out@ == nine_spec(v).subrange(0, n - j),
        decreases j,
    {
        out.push(digits[j - 1]);
        j = j - 1;
        assert(out@ =~= nine_spec(v).subrange(0, n - j));
    }
    assert(nine_spec(v).subrange(0, n as int) =~= nine_spec(v));
    out
}

/// Segments as plain values: each one's mode and bytes.
pub open spec fn seg_views(s: Seq<Segment>) -> Seq<(Mode, Seq<u8>)> {
    s.map_values(|x: Segment| (x.mode, x.data@))
}

/// The segments once pending `bytes` close into a byte segment (none when empty).
pub open spec fn flushed(segs: Seq<(Mode, Seq<u8>)>, bytes: Seq<u8>) -> Seq<(Mode, Seq<u8>)> {
    if bytes.len() > 0 {
        segs.push((Mode::Byte, bytes))
    } else {
        segs
    }
}

/// The decoder state: current set, set a shift returns to, codewords the shift
/// has left (-1 when none), segments so far and pending bytes.
pub struct BodyState {
    pub set: usize,
    pub last_set: usize,
    pub shift: i32,
    pub segs: Seq<(Mode, Seq<u8>)>,
    pub bytes: Seq<u8>,
}

/// The state after one codeword's effect: a shift lasts exactly its span.
pub open spec fn after_shift(st: BodyState) -> BodyState {
    let expired = st.shift == 0;
    BodyState {
        set: if expired { st.last_set } else { st.set },
        shift: if st.shift >= 0 { (st.shift - 1) as i32 } else { st.shift },
        ..st
    }
}

/// Enter set `to` for `span` codewords, remembering the current set.
pub open spec fn shift_to(st: BodyState, to: usize, span: i32) -> BodyState {
    BodyState { last_set: st.set, set: to, shift: span, ..st }
}

/// The state machine over `body[i..]` from `st`: each codeword is read in the
/// current set (its value modulo 64); latches change the set, shifts change it
/// for one to three codewords, NS carries nine digits in the next five codewords,
/// an ECI marker closes the pending bytes and adds a designator. The run stops at
/// the end, or where NS or ECI lacks its codewords.
pub open spec fn body_run(body: Seq<u8>, i: int, st: BodyState) -> BodyState
    decreases body.len() - i,
{
    if i < 0 || i >= body.len() || st.set >= 5 {
        st
    } else {
        let value = (body[i] % 64) as int;
        let i1 = i + 1;
        match set_entry(st.set as int, value) {
            Cw::LatchA => body_run(body, i1, after_shift(BodyState { set: 0, shift: -1i32, ..st })),
            Cw::LatchB => body_run(body, i1, after_shift(BodyState { set: 1, shift: -1i32, ..st })),
            Cw::ShiftA => body_run(body, i1, after_shift(shift_to(st, 0, 1))),
            Cw::ShiftB => body_run(body, i1, after_shift(shift_to(st, 1, 1))),
            Cw::ShiftC => body_run(body, i1, after_shift(shift_to(st, 2, 1))),
            Cw::ShiftD => body_run(body, i1, after_shift(shift_to(st, 3, 1))),
            Cw::ShiftE => body_run(body, i1, after_shift(shift_to(st, 4, 1))),
            Cw::TwoShiftA => body_run(body, i1, after_shift(shift_to(st, 0, 2))),
            Cw::ThreeShiftA => body_run(body, i1, after_shift(shift_to(st, 0, 3))),
            Cw::Lock => body_run(body, i1, after_shift(BodyState { shift: -1i32, ..st })),
            Cw::Pad => body_run(body, i1, after_shift(st)),
            Cw::Ns => if body.len() - i1 >= 5 {
                let v = ((body[i1] % 64) as u32 * 16777216 + (body[i1 + 1] % 64) as u32 * 262144 + (body[i1 + 2]
                    % 64) as u32 * 4096 + (body[i1 + 3] % 64) as u32 * 64 + (body[i1 + 4] % 64) as u32) as u32;
                body_run(body, i1 + 5, after_shift(BodyState { bytes: st.bytes + nine_spec(v), ..st }))
            } else {
                st
            },
            Cw::Eci => match eci_spec(body, i1) {
                Some((e, c)) => body_run(
                    body,
                    i1 + c,
                    after_shift(
                        BodyState {
                            segs: flushed(st.segs, st.bytes).push((Mode::Eci(e), Seq::<u8>::empty())),
                            bytes: Seq::empty(),
                            ..st
                        },
                    ),
                ),
                None => st,
            },
            Cw::Byte(b) => body_run(body, i1, after_shift(BodyState { bytes: st.bytes.push(b), ..st })),
        }
    }
}

/// The segments a body decodes to: the run from set A with no shift, its pending
/// bytes closed, or one empty byte segment when that gives none.
pub open spec fn decode_body_spec(body: Seq<u8>) -> Seq<(Mode, Seq<u8>)> {
    let fin = body_run(body, 0, BodyState { set: 0, last_set: 0, shift: -1i32, segs: Seq::empty(), bytes: Seq::empty() });
    let f = flushed(fin.segs, fin.bytes);
    if f.len() == 0 {
        seq![(Mode::Byte, Seq::<u8>::empty())]
    } else {
        f
    }
}

/// Move pending bytes into a byte segment.
fn flush(bytes: &mut Vec<u8>, segments: &mut Vec<Segment>)
    requires
        body_segs_ok(old(segments)@),
    ensures
        body_segs_ok(final(segments)@),
        final(bytes)@.len() == 0,
        final(segments)@.len() >= old(segments)@.len(),
        seg_views(final(segments)@) == flushed(seg_views(old(segments)@), old(bytes)@),
{
    if bytes.len() > 0 {
        let mut taken: Vec<u8> = Vec::new();
        std::mem::swap(&mut taken, bytes);
        let ghost before = segments@;
        segments.push(Segment::byte(taken));
        proof {
            assert(seg_views(segments@) =~= flushed(seg_views(old(segments)@), old(bytes)@));
            assert forall|k: int| 0 <= k < segments@.len() implies #[trigger] segments@[k].mode == Mode::Byte || (
            segments@[k].mode is Eci && segments@[k].data@.len() == 0) by {
                if k < before.len() {
                    assert(segments@[k] == before[k]);
                }
            }
        }
    }
}

/// Run the code-set state machine over a data-codeword body, recovering the payload
/// bytes as segments (byte runs split by ECI designators); padding is dropped. A
/// body with no payload gives one empty byte segment.
#[verifier::rlimit(80)]
pub fn decode_body(body: &[u8]) -> (segments: Vec<Segment>)
    ensures
        segments@.len() >= 1,
        body_segs_ok(segments@),
        seg_views(segments@) == decode_body_spec(body@),
{
    let mut segments: Vec<Segment> = Vec::new();
    let mut bytes: Vec<u8> = Vec::new();
    let mut set: usize = 0;
    let mut last_set: usize = 0;
    let mut shift: i32 = -1;
    let mut i: usize = 0;
    let ghost fin = body_run(body@, 0, BodyState { set: 0, last_set: 0, shift: -1i32, segs: Seq::empty(), bytes: Seq::empty() });
    proof {
        assert(seg_views(segments@) =~= Seq::<(Mode, Seq<u8>)>::empty());
    }
    while i < body.len()
        invariant_except_break
            fin == body_run(body@, i as int, (BodyState { set, last_set, shift, segs: seg_views(segments@), bytes: bytes@ })),
        invariant
            i <= body@.len(),
            set < 5,
            last_set < 5,
            -1 <= shift <= 3,
            body_segs_ok(segments@),
            fin == body_run(body@, 0, (BodyState { set: 0, last_set: 0, shift: -1i32, segs: Seq::empty(), bytes: Seq::empty() })),
        ensures
            body_segs_ok(segments@),
            fin == (BodyState { set, last_set, shift, segs: seg_views(segments@), bytes: bytes@ }),
        decreases body@.len() - i,
    {
        let ghost st0 = BodyState { set, last_set, shift, segs: seg_views(segments@), bytes: bytes@ };
        let ghost i0 = i as int;
        let value = (body[i] % 64) as usize;
        i = i + 1;
        match entry(set, value) {
            Cw::LatchA => {
                set = 0;
                shift = -1;
            },
            Cw::LatchB => {
                set = 1;
                shift = -1;
            },
            Cw::ShiftA => {
                last_set = set;
                set = 0;
                shift = 1;
            },
            Cw::ShiftB => {
                last_set = set;
                set = 1;
                shift = 1;
            },
            Cw::ShiftC => {
                last_set = set;
                set = 2;
                shift = 1;
            },
            Cw::ShiftD => {
                last_set = set;
                set = 3;
                shift = 1;
            },
            Cw::ShiftE => {
                last_set = set;
                set = 4;
                shift = 1;
            },
            Cw::TwoShiftA => {
                last_set = set;
                set = 0;
                shift = 2;
            },
            Cw::ThreeShiftA => {
                last_set = set;
                set = 0;
                shift = 3;
            },
            Cw::Lock => {
                shift = -1;
            },
            Cw::Pad => {},
            Cw::Ns => {
                if body.len() - i >= 5 {
                    let v = (body[i] as u32 % 64) * 16777216 + (body[i + 1] as u32 % 64) * 262144 + (body[i + 2] as u32
                        % 64) * 4096 + (body[i + 3] as u32 % 64) * 64 + (body[i + 4] as u32 % 64);
                    assert(v == ((body@[i0 + 1] % 64) as u32 * 16777216 + (body@[i0 + 2] % 64) as u32 * 262144 + (
                    body@[i0 + 3] % 64) as u32 * 4096 + (body@[i0 + 4] % 64) as u32 * 64 + (body@[i0 + 5] % 64) as u32) as u32);
                    i = i + 5;
                    let digits = nine_digits(v);
                    let ghost b0 = bytes@;
                    let mut k: usize = 0;
                    while k < digits.len()
                        invariant
                            k <= digits@.len(),
                            bytes@ == b0 + digits@.take(k as int),
                        decreases digits@.len() - k,
                    {
                        bytes.push(digits[k]);
                        k = k + 1;
                        assert(bytes@ =~= b0 + digits@.take(k as int));
                    }
                    assert(digits@.take(digits@.len() as int) =~= digits@);
                    assert(body_run(body@, i0, st0) == body_run(
                        body@,
                        i as int,
                        after_shift((BodyState { set, last_set, shift, segs: seg_views(segments@), bytes: bytes@ })),
                    ));
                } else {
                    assert(body_run(body@, i0, st0) == st0);
                    break;
                }
            },
            Cw::Eci => {
                match read_eci(body, i) {
                    Some((eci, consumed)) => {
                        let ghost sv0 = seg_views(segments@);
                        let ghost b0 = bytes@;
                        assert(eci_spec(body@, i0 + 1) == Some((eci, consumed)));
                        i = i + consumed;
                        flush(&mut bytes, &mut segments);
                        let ghost before = segments@;
                        assert(seg_views(before) == flushed(sv0, b0));
                        segments.push(Segment::eci(eci));
                        proof {
                            assert(segments@.last().data@ =~= Seq::<u8>::empty());
                            assert(seg_views(segments@) =~= seg_views(before).push((Mode::Eci(eci), Seq::<u8>::empty())));
                            assert forall|k: int| 0 <= k < segments@.len() implies #[trigger] segments@[k].mode == Mode::Byte
                                || (segments@[k].mode is Eci && segments@[k].data@.len() == 0) by {
                                if k < before.len() {
                                    assert(segments@[k] == before[k]);
                                }
                            }
                            assert(bytes@ =~= Seq::<u8>::empty());
                            let ghost nst = BodyState {
                                segs: flushed(st0.segs, st0.bytes).push((Mode::Eci(eci), Seq::<u8>::empty())),
                                bytes: Seq::empty(),
                                ..st0
                            };
                            assert(nst == (BodyState { set, last_set, shift, segs: seg_views(segments@), bytes: bytes@ }));
                            assert(set_entry(st0.set as int, (body@[i0] % 64) as int) == Cw::Eci);
                            assert(body_run(body@, i0, st0) == body_run(body@, i0 + 1 + consumed, after_shift(nst)));
                            assert(body_run(body@, i0, st0) == body_run(
                                body@,
                                i as int,
                                after_shift((BodyState { set, last_set, shift, segs: seg_views(segments@), bytes: bytes@ })),
                            ));
                        }
                    },
                    None => {
                        assert(body_run(body@, i0, st0) == st0);
                        break;
                    },
                }
            },
            Cw::Byte(b) => {
                bytes.push(b);
                assert(body_run(body@, i0, st0) == body_run(
                    body@,
                    i as int,
                    after_shift((BodyState { set, last_set, shift, segs: seg_views(segments@), bytes: bytes@ })),
                ));
            },
        }
        let ghost mid = BodyState { set, last_set, shift, segs: seg_views(segments@), bytes: bytes@ };
        proof {
            assert(body_run(body@, i0, st0) == body_run(body@, i as int, after_shift(mid)));
        }
        // A shift lasts exactly its span.
        let expired = shift == 0;
        if shift >= 0 {
            shift = shift - 1;
        }
        if expired {
            set = last_set;
        }
        proof {
            assert(after_shift(mid) == (BodyState { set, last_set, shift, segs: seg_views(segments@), bytes: bytes@ }));
        }
    }
    flush(&mut bytes, &mut segments);
    if segments.len() == 0 {
        segments.push(Segment::byte(Vec::new()));
        proof {
            assert(seg_views(segments@) =~= seq![(Mode::Byte, Seq::<u8>::empty())]);
        }
    }
    segments
}

} // verus!
