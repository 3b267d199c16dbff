//! Look-ahead predicates of the DotCode data encodation (AIM ISS DotCode Rev 4.0,
//! Annex F): which code set can take the input at a given position, and how far.
use vstd::prelude::*;

verus! {

/// An ASCII digit.
pub open spec fn digit(b: u8) -> bool {
    48 <= b <= 57
}

/// Two digits start at `pos`.
pub open spec fn twodigits_spec(s: Seq<u8>, pos: int) -> bool {
    0 <= pos && pos + 1 < s.len() && digit(s[pos]) && digit(s[pos + 1])
}

/// Code Set A takes the byte at `pos` (0–95).
pub open spec fn datum_a_spec(s: Seq<u8>, pos: int) -> bool {
    0 <= pos < s.len() && s[pos] <= 95
}

/// A Code Set B special control byte: HT, FS, GS, RS.
pub open spec fn b_special(c: u8) -> bool {
    c == 9 || c == 28 || c == 29 || c == 30
}

/// Code Set B at `pos`: 0 = not encodable, 1 = one byte, 2 = a CR/LF pair.
pub open spec fn datum_b_spec(s: Seq<u8>, pos: int) -> int {
    if !(0 <= pos < s.len()) {
        0
    } else if 32 <= s[pos] <= 127 || b_special(s[pos]) {
        1
    } else if pos + 1 < s.len() && s[pos] == 13 && s[pos + 1] == 10 {
        2
    } else {
        0
    }
}

/// The byte at `pos` needs binary mode (128–255).
pub open spec fn binary_spec(s: Seq<u8>, pos: int) -> bool {
    0 <= pos < s.len() && s[pos] >= 128
}

/// The GS1 "17…10" pattern: `17`, six digits, `10`.
pub open spec fn seventeen_ten_spec(s: Seq<u8>, pos: int) -> bool {
    &&& 0 <= pos && pos + 9 < s.len()
    &&& s[pos] == 49 && s[pos + 1] == 55 && s[pos + 8] == 49 && s[pos + 9] == 48
    &&& forall|k: int| 2 <= k < 8 ==> #[trigger] digit(s[pos + k])
}

/// Consecutive digit pairs starting at `pos`.
pub open spec fn ahead_c_spec(s: Seq<u8>, pos: int) -> nat
    decreases s.len() - pos,
{
    if pos >= 0 && twodigits_spec(s, pos) {
        1 + ahead_c_spec(s, pos + 2)
    } else {
        0
    }
}

/// How many digit pairs Code Set C should take at `pos` (0 when a pair starting one
/// byte later would do at least as well).
pub open spec fn try_c_spec(s: Seq<u8>, pos: int) -> nat {
    if 0 <= pos < s.len() && digit(s[pos]) && ahead_c_spec(s, pos) > ahead_c_spec(s, pos + 1) {
        ahead_c_spec(s, pos)
    } else {
        0
    }
}

/// Bytes Code Set A could take from `pos` before Code Set C becomes worthwhile.
pub open spec fn ahead_a_spec(s: Seq<u8>, pos: int) -> nat
    decreases s.len() - pos,
{
    if pos >= 0 && datum_a_spec(s, pos) && try_c_spec(s, pos) < 2 {
        1 + ahead_a_spec(s, pos + 1)
    } else {
        0
    }
}

/// Code Set B characters from `pos` before Code Set C becomes worthwhile.
pub open spec fn ahead_b_spec(s: Seq<u8>, pos: int) -> nat
    decreases s.len() - pos,
{
    if pos >= 0 && datum_b_spec(s, pos) != 0 && try_c_spec(s, pos) < 2 {
        1 + ahead_b_spec(s, pos + datum_b_spec(s, pos))
    } else {
        0
    }
}

/// Bytes those Code Set B characters span.
pub open spec fn ahead_b_len_spec(s: Seq<u8>, pos: int) -> int
    decreases s.len() - pos,
{
    if pos >= 0 && datum_b_spec(s, pos) != 0 && try_c_spec(s, pos) < 2 {
        datum_b_spec(s, pos) + ahead_b_len_spec(s, pos + datum_b_spec(s, pos))
    } else {
        0
    }
}

pub fn is_digit(b: u8) -> (r: bool)
    ensures
        r == digit(b),
{
    48 <= b && b <= 57
}

pub fn is_twodigits(src: &[u8], pos: usize) -> (r: bool)
    ensures
        r == twodigits_spec(src@, pos as int),
{
    pos < src.len() && pos + 1 < src.len() && is_digit(src[pos]) && is_digit(src[pos + 1])
}

/// The two-digit number at `pos`.
pub fn to_int2(src: &[u8], pos: usize) -> (r: u8)
    requires
        twodigits_spec(src@, pos as int),
    ensures
        r == (src@[pos as int] - 48) * 10 + (src@[pos + 1] - 48),
        r < 100,
{
    (src[pos] - 48) * 10 + (src[pos + 1] - 48)
}

/// Consecutive digits at `pos`, capped at `max`.
pub fn cnt_digits(src: &[u8], pos: usize, max: usize) -> (r: usize)
    requires
        pos + max <= usize::MAX,
    ensures
        r <= max,
        pos + r <= src@.len() || r == 0,
        forall|k: int| 0 <= k < r ==> #[trigger] digit(src@[pos + k]),
        r < max ==> (pos + r >= src@.len() || !digit(src@[pos + r])),
{
    let end = if pos + max < src.len() { pos + max } else { src.len() };
    let mut i = pos;
    while i < end && is_digit(src[i])
        invariant
            pos <= i,
            i <= end || i == pos,
            end <= src@.len(),
            end <= pos + max,
            end == pos + max || end == src@.len(),
            forall|k: int| pos <= k < i ==> #[trigger] digit(src@[k]),
        decreases end - i,
    {
        i = i + 1;
    }
    proof {
        assert forall|k: int| 0 <= k < i - pos implies #[trigger] digit(src@[pos + k]) by {
            assert(digit(src@[pos + k]));
        }
    }
    if i < pos { 0 } else { i - pos }
}

pub fn datum_a(src: &[u8], pos: usize) -> (r: bool)
    ensures
        r == datum_a_spec(src@, pos as int),
{
    pos < src.len() && src[pos] <= 95
}

pub fn datum_b(src: &[u8], pos: usize) -> (r: usize)
    ensures
        r == datum_b_spec(src@, pos as int),
        r <= 2,
{
    if pos >= src.len() {
        return 0;
    }
    let c = src[pos];
    if 32 <= c && c <= 127 {
        return 1;
    }
    if c == 9 || c == 28 || c == 29 || c == 30 {
        return 1;
    }
    if pos + 1 < src.len() && c == 13 && src[pos + 1] == 10 {
        return 2;
    }
    0
}

pub fn datum_c(src: &[u8], pos: usize) -> (r: bool)
    ensures
        r == twodigits_spec(src@, pos as int),
{
    is_twodigits(src, pos)
}

pub fn binary(src: &[u8], pos: usize) -> (r: bool)
    ensures
        r == binary_spec(src@, pos as int),
{
    pos < src.len() && src[pos] >= 128
}

pub fn seventeen_ten(src: &[u8], pos: usize) -> (r: bool)
    ensures
        r == seventeen_ten_spec(src@, pos as int),
{
    if !(pos < src.len() && src.len() - pos > 9) {
        return false;
    }
    if !(src[pos] == 49 && src[pos + 1] == 55 && src[pos + 8] == 49 && src[pos + 9] == 48) {
        return false;
    }
    let n = cnt_digits(src, pos + 2, 6);
    proof {
        if n >= 6 {
            assert forall|k: int| 2 <= k < 8 implies #[trigger] digit(src@[pos + k]) by {
                assert(digit(src@[(pos + 2) + (k - 2)]));
            }
        } else {
            let k: int = 2 + n as int;
            assert(!digit(src@[(pos + 2) + n]));
            assert(!digit(src@[pos as int + k]));
        }
    }
    n >= 6
}

pub fn ahead_c(src: &[u8], pos: usize) -> (r: usize)
    ensures
        r == ahead_c_spec(src@, pos as int),
{
    let mut count: usize = 0;
    let mut i = pos;
    while i < src.len() && datum_c(src, i)
        invariant
            pos <= i,
            count <= i - pos,
            count + ahead_c_spec(src@, i as int) == ahead_c_spec(src@, pos as int),
        decreases src@.len() - i,
    {
        count = count + 1;
        i = i + 2;
    }
    count
}

pub fn try_c(src: &[u8], pos: usize) -> (r: usize)
    ensures
        r == try_c_spec(src@, pos as int),
{
    if pos < src.len() && is_digit(src[pos]) {
        let ahead = ahead_c(src, pos);
        if ahead > ahead_c(src, pos + 1) {
            return ahead;
        }
    }
    0
}

pub fn ahead_a(src: &[u8], pos: usize) -> (r: usize)
    ensures
        r == ahead_a_spec(src@, pos as int),
{
    let mut count: usize = 0;
    let mut i = pos;
    while i < src.len() && datum_a(src, i) && try_c(src, i) < 2
        invariant
            pos <= i,
            count <= i - pos,
            count + ahead_a_spec(src@, i as int) == ahead_a_spec(src@, pos as int),
        decreases src@.len() - i,
    {
        count = count + 1;
        i = i + 1;
    }
    count
}

/// Returns (bytes consumed, number of Code Set B characters).
pub fn ahead_b(src: &[u8], pos: usize) -> (r: (usize, usize))
    ensures
        r.0 == ahead_b_len_spec(src@, pos as int),
        r.1 == ahead_b_spec(src@, pos as int),
{
    let mut count: usize = 0;
    let mut i = pos;
    loop
        invariant
            pos <= i,
            count <= i - pos,
            count + ahead_b_spec(src@, i as int) == ahead_b_spec(src@, pos as int),
            (i - pos) + ahead_b_len_spec(src@, i as int) == ahead_b_len_spec(src@, pos as int),
        ensures
            pos <= i,
            count == ahead_b_spec(src@, pos as int),
            i - pos == ahead_b_len_spec(src@, pos as int),
        decreases src@.len() + 2 - i,
    {
        if i >= src.len() {
            proof {
                assert(ahead_b_spec(src@, i as int) == 0);
                assert(ahead_b_len_spec(src@, i as int) == 0);
            }
            break;
        }
        let incr = datum_b(src, i);
        if incr == 0 || try_c(src, i) >= 2 {
            proof {
                assert(ahead_b_spec(src@, i as int) == 0);
                assert(ahead_b_len_spec(src@, i as int) == 0);
            }
            break;
        }
        count = count + 1;
        i = i + incr;
    }
    (i - pos, count)
}

} // verus!
