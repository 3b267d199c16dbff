use vstd::prelude::*;

verus! {

/// How the bytes of a [`Segment`] are to be interpreted.
#[derive(Debug, Clone, Copy, PartialEq, Eq, Structural)]
pub enum Mode {
    /// ASCII digits `0-9`.
    Numeric,
    /// The QR alphanumeric set (digits, upper case, space, `$%*+-./:`).
    Alphanumeric,
    /// Arbitrary bytes.
    Byte,
    /// Shift-JIS double-byte characters.
    Kanji,
    /// An Extended Channel Interpretation designator (no data bytes).
    Eci(u32),
}

/// A run of payload in one encoding mode.
#[derive(Debug, Clone, PartialEq, Eq)]
pub struct Segment {
    /// The mode the bytes are encoded in.
    pub mode: Mode,
    /// The payload bytes.
    pub data: Vec<u8>,
}

impl Segment {
    /// A numeric segment.
    pub fn numeric(data: Vec<u8>) -> (s: Segment)
        ensures
            s.mode == Mode::Numeric,
            s.data@ == data@,
    {
        Segment { mode: Mode::Numeric, data }
    }

    /// An alphanumeric segment.
    pub fn alphanumeric(data: Vec<u8>) -> (s: Segment)
        ensures
            s.mode == Mode::Alphanumeric,
            s.data@ == data@,
    {
        Segment { mode: Mode::Alphanumeric, data }
    }

    /// A byte segment.
    pub fn byte(data: Vec<u8>) -> (s: Segment)
        ensures
            s.mode == Mode::Byte,
            s.data@ == data@,
    {
        Segment { mode: Mode::Byte, data }
    }

    /// A Kanji segment (Shift-JIS byte pairs).
    pub fn kanji(data: Vec<u8>) -> (s: Segment)
        ensures
            s.mode == Mode::Kanji,
            s.data@ == data@,
    {
        Segment { mode: Mode::Kanji, data }
    }

    /// An ECI designator segment.
    pub fn eci(designator: u32) -> (s: Segment)
        ensures
            s.mode == Mode::Eci(designator),
            s.data@.len() == 0,
    {
        Segment { mode: Mode::Eci(designator), data: Vec::new() }
    }
}

/// The bytes a sequence of segments carries: every data byte, ECI designators
/// contributing none.
pub open spec fn payload_of(segs: Seq<Segment>) -> Seq<u8>
    decreases segs.len(),
{
    if segs.len() == 0 {
        Seq::empty()
    } else {
        payload_of(segs.drop_last()) + segs.last().data@
    }
}

} // verus!

verus! {

/// A copy of a byte slice.
pub fn copy_bytes(s: &[u8]) -> (v: Vec<u8>)
    ensures
        v@ == s@,
{
    let mut v: Vec<u8> = Vec::with_capacity(s.len());
    let mut i: usize = 0;
    while i < s.len()
        invariant
            i <= s@.len(),
            v@ == s@.take(i as int),
        decreases s@.len() - i,
    {
        v.push(s[i]);
        i = i + 1;
        proof {
            assert(v@ =~= s@.take(i as int));
        }
    }
    proof {
        assert(s@.take(s@.len() as int) =~= s@);
    }
    v
}

} // verus!
