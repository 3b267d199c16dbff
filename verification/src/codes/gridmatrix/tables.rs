//! Static Grid Matrix specification tables (AIMD014 / GB/T 27766).
//!
//! Grid Matrix has 13 versions. A version-`v` symbol is built from
//! `mpd = 2·v + 1` macromodules per dimension; each macromodule is a 6×6 block of
//! modules, so the symbol is `size = 6·mpd = 6 + 12·v` modules on a side and holds
//! `mpd²` data macromodules of two 7-bit codewords each (`total_cw = 2·mpd²`).
//!
//! The error-correction structure (data-codeword capacity per EC level, block split,
//! and per-block EC lengths) follows zint's `gridmtx.h`.
use vstd::prelude::*;

verus! {

/// The five Grid Matrix error-correction levels, in ascending order of *data*
/// capacity. `L1` is the strongest protection, `L5` the weakest.
#[derive(Debug, Clone, Copy, PartialEq, Eq, Hash, PartialOrd, Ord, Structural)]
pub enum EcLevel {
    /// Strongest error correction (roughly half the codewords are EC).
    L1,
    /// Strong error correction.
    L2,
    /// Balanced error correction (the encoder default).
    L3,
    /// Light error correction.
    L4,
    /// Weakest error correction (maximum data capacity).
    L5,
}

/// The 1-based number of a level.
pub open spec fn level_number(e: EcLevel) -> int {
    match e {
        EcLevel::L1 => 1,
        EcLevel::L2 => 2,
        EcLevel::L3 => 3,
        EcLevel::L4 => 4,
        EcLevel::L5 => 5,
    }
}

impl EcLevel {
    /// The 1-based level number used to index the specification tables.
    pub fn number(self) -> (n: usize)
        ensures
            n == level_number(self),
    {
        match self {
            EcLevel::L1 => 1,
            EcLevel::L2 => 2,
            EcLevel::L3 => 3,
            EcLevel::L4 => 4,
            EcLevel::L5 => 5,
        }
    }

    /// Recover a level from its 1-based number (1–5).
    pub fn from_number(n: usize) -> (r: Option<Self>)
        ensures
            r is Some <==> 1 <= n <= 5,
            r matches Some(e) ==> level_number(e) == n,
    {
        match n {
            1 => Some(EcLevel::L1),
            2 => Some(EcLevel::L2),
            3 => Some(EcLevel::L3),
            4 => Some(EcLevel::L4),
            5 => Some(EcLevel::L5),
            _ => None,
        }
    }
}

/// A Grid Matrix version, 1–13. Determines the symbol size and codeword capacity.
#[derive(Debug, Clone, Copy, PartialEq, Eq, Hash, PartialOrd, Ord, Structural)]
pub struct Version(u8);

/// Data-codeword capacity per version (row) and EC level 1–5 (column), row-major.
pub open spec fn gm_data_cws() -> Seq<u16> {
    seq![
        0u16, 15, 13, 11, 9,
        45, 40, 35, 30, 25,
        89, 79, 69, 59, 49,
        146, 130, 114, 98, 81,
        218, 194, 170, 146, 121,
        305, 271, 237, 203, 169,
        405, 360, 315, 270, 225,
        521, 463, 405, 347, 289,
        650, 578, 506, 434, 361,
        794, 706, 618, 530, 441,
        953, 847, 741, 635, 529,
        1125, 1000, 875, 750, 625,
        1313, 1167, 1021, 875, 729
    ]
}

/// Size of the larger interleaved RS block per version.
pub open spec fn gm_n1() -> Seq<u8> {
    seq![18u8, 50, 98, 81, 121, 113, 113, 116, 121, 126, 118, 125, 122]
}

/// Number of larger blocks per version.
pub open spec fn gm_b1() -> Seq<u8> {
    seq![1u8, 1, 1, 2, 2, 2, 2, 3, 2, 7, 5, 10, 6]
}

/// Number of smaller (`n1 - 1`) blocks per version.
pub open spec fn gm_b2() -> Seq<u8> {
    seq![0u8, 0, 0, 0, 0, 1, 2, 2, 4, 0, 4, 0, 6]
}

/// Per version and EC level `[e1, b3, e2]`, flattened row-major: `e1` is the EC
/// length of the first `b3` blocks and `e2` the EC length of the rest.
pub open spec fn gm_e1b3e2() -> Seq<u8> {
    seq![
        0u8, 0, 0, 3, 1, 0, 5, 1, 0, 7, 1, 0, 9, 1, 0,
        5, 1, 0, 10, 1, 0, 15, 1, 0, 20, 1, 0, 25, 1, 0,
        9, 1, 0, 19, 1, 0, 29, 1, 0, 39, 1, 0, 49, 1, 0,
        8, 2, 0, 16, 2, 0, 24, 2, 0, 32, 2, 0, 41, 1, 40,
        12, 2, 0, 24, 2, 0, 36, 2, 0, 48, 2, 0, 61, 1, 60,
        11, 3, 0, 23, 1, 22, 34, 2, 33, 45, 3, 0, 57, 1, 56,
        12, 1, 11, 23, 2, 22, 34, 3, 33, 45, 4, 0, 57, 1, 56,
        12, 2, 11, 23, 5, 0, 35, 3, 34, 47, 1, 46, 58, 4, 57,
        12, 6, 0, 24, 6, 0, 36, 6, 0, 48, 6, 0, 61, 1, 60,
        13, 4, 12, 26, 1, 25, 38, 5, 37, 51, 2, 50, 63, 7, 0,
        12, 6, 11, 24, 4, 23, 36, 2, 35, 47, 9, 0, 59, 7, 58,
        13, 5, 12, 25, 10, 0, 38, 5, 37, 50, 10, 0, 63, 5, 62,
        13, 1, 12, 25, 3, 24, 37, 5, 36, 49, 7, 48, 61, 9, 60
    ]
}

/// The data capacity of version `v` (1–13) at level number `e` (1–5).
pub open spec fn data_cws_spec(v: int, e: int) -> int {
    gm_data_cws()[(v - 1) * 5 + (e - 1)] as int
}

impl Version {
    /// The version number.
    pub closed spec fn num(self) -> int {
        self.0 as int
    }

    /// A version number is 1–13.
    #[verifier::type_invariant]
    closed spec fn in_range(self) -> bool {
        1 <= self.0 <= 13
    }

    /// Construct a version, validating the `1..=13` range.
    pub fn new(v: u8) -> (r: Option<Self>)
        ensures
            r is Some <==> 1 <= v <= 13,
            r matches Some(x) ==> x.num() == v,
    {
        if 1 <= v && v <= 13 { Some(Version(v)) } else { None }
    }

    /// The version number, 1–13.
    pub fn number(self) -> (n: u8)
        ensures
            n == self.num(),
            1 <= n <= 13,
    {
        proof {
            use_type_invariant(&self);
        }
        self.0
    }

    /// Number of macromodules along each side (`2·v + 1`).
    pub fn macromodules_per_dim(self) -> (n: usize)
        ensures
            n == 2 * self.num() + 1,
    {
        1 + (self.number() as usize) * 2
    }

    /// Side length of the module grid (`6 + 12·v`).
    pub fn size(self) -> (n: usize)
        ensures
            n == 6 + 12 * self.num(),
    {
        6 * self.macromodules_per_dim()
    }

    /// Total codewords in the symbol (`2 · mpd²`).
    pub fn total_codewords(self) -> (n: usize)
        ensures
            n == 2 * (2 * self.num() + 1) * (2 * self.num() + 1),
    {
        proof {
            use_type_invariant(&self);
        }
        let mpd = self.macromodules_per_dim();
        assert(mpd * mpd <= 27 * 27) by (nonlinear_arith)
            requires
                mpd <= 27,
        ;
        let sq = mpd * mpd;
        assert(2 * sq == 2 * mpd * mpd) by (nonlinear_arith)
            requires
                sq == mpd * mpd,
        ;
        2 * sq
    }

    /// Data-codeword capacity at the given EC level.
    pub fn data_codewords(self, ec: EcLevel) -> (n: usize)
        ensures
            n == data_cws_spec(self.num(), level_number(ec)),
    {
        let t: [u16; 65] = [
            0, 15, 13, 11, 9,
            45, 40, 35, 30, 25,
            89, 79, 69, 59, 49,
            146, 130, 114, 98, 81,
            218, 194, 170, 146, 121,
            305, 271, 237, 203, 169,
            405, 360, 315, 270, 225,
            521, 463, 405, 347, 289,
            650, 578, 506, 434, 361,
            794, 706, 618, 530, 441,
            953, 847, 741, 635, 529,
            1125, 1000, 875, 750, 625,
            1313, 1167, 1021, 875, 729,
        ];
        proof {
            assert(t@ =~= gm_data_cws());
        }
        let v = self.number() as usize;
        t[(v - 1) * 5 + (ec.number() - 1)] as usize
    }
}

/// One interleaved Reed–Solomon block: how many total and EC codewords it holds.
#[derive(Debug, Clone, Copy, PartialEq, Eq, Structural)]
pub struct Block {
    /// Total codewords in the block (data + EC).
    pub total: usize,
    /// EC codewords in the block.
    pub ec: usize,
}

impl Block {
    /// Data codewords in the block.
    pub fn data(self) -> (n: usize)
        requires
            self.ec <= self.total,
        ensures
            n == self.total - self.ec,
    {
        self.total - self.ec
    }
}

/// The block list of version `v` at level number `e`: the first `b1` blocks have
/// `n1` codewords, the remaining `b2` have `n1 - 1`; the first `b3` carry `e1` EC
/// codewords and the rest `e2`.
pub open spec fn blocks_spec(v: int, e: int) -> Seq<Block> {
    let idx = v - 1;
    let n1 = gm_n1()[idx] as int;
    let b1 = gm_b1()[idx] as int;
    let b2 = gm_b2()[idx] as int;
    let base = idx * 15 + (e - 1) * 3;
    let e1 = gm_e1b3e2()[base] as int;
    let b3 = gm_e1b3e2()[base + 1] as int;
    let e2 = gm_e1b3e2()[base + 2] as int;
    Seq::new((b1 + b2) as nat, |i: int| Block {
        total: (if i < b1 { n1 } else { n1 - 1 }) as usize,
        ec: (if i < b3 { e1 } else { e2 }) as usize,
    })
}

/// The block-structure row of version number `v`: `(n1, b1, b2)`.
fn block_row(v: usize) -> (r: (usize, usize, usize))
    requires
        1 <= v <= 13,
    ensures
        r.0 == gm_n1()[v - 1],
        r.1 == gm_b1()[v - 1],
        r.2 == gm_b2()[v - 1],
{
    let n1: [u8; 13] = [18, 50, 98, 81, 121, 113, 113, 116, 121, 126, 118, 125, 122];
    let b1: [u8; 13] = [1, 1, 1, 2, 2, 2, 2, 3, 2, 7, 5, 10, 6];
    let b2: [u8; 13] = [0, 0, 0, 0, 0, 1, 2, 2, 4, 0, 4, 0, 6];
    proof {
        assert(n1@ =~= gm_n1());
        assert(b1@ =~= gm_b1());
        assert(b2@ =~= gm_b2());
    }
    (n1[v - 1] as usize, b1[v - 1] as usize, b2[v - 1] as usize)
}

/// The `[e1, b3, e2]` entry of version number `v` at level number `e`.
fn ec_row(v: usize, e: usize) -> (r: (usize, usize, usize))
    requires
        1 <= v <= 13,
        1 <= e <= 5,
    ensures
        r.0 == gm_e1b3e2()[(v - 1) * 15 + (e - 1) * 3],
        r.1 == gm_e1b3e2()[(v - 1) * 15 + (e - 1) * 3 + 1],
        r.2 == gm_e1b3e2()[(v - 1) * 15 + (e - 1) * 3 + 2],
{
    let t: [u8; 195] = [
        0, 0, 0, 3, 1, 0, 5, 1, 0, 7, 1, 0, 9, 1, 0,
        5, 1, 0, 10, 1, 0, 15, 1, 0, 20, 1, 0, 25, 1, 0,
        9, 1, 0, 19, 1, 0, 29, 1, 0, 39, 1, 0, 49, 1, 0,
        8, 2, 0, 16, 2, 0, 24, 2, 0, 32, 2, 0, 41, 1, 40,
        12, 2, 0, 24, 2, 0, 36, 2, 0, 48, 2, 0, 61, 1, 60,
        11, 3, 0, 23, 1, 22, 34, 2, 33, 45, 3, 0, 57, 1, 56,
        12, 1, 11, 23, 2, 22, 34, 3, 33, 45, 4, 0, 57, 1, 56,
        12, 2, 11, 23, 5, 0, 35, 3, 34, 47, 1, 46, 58, 4, 57,
        12, 6, 0, 24, 6, 0, 36, 6, 0, 48, 6, 0, 61, 1, 60,
        13, 4, 12, 26, 1, 25, 38, 5, 37, 51, 2, 50, 63, 7, 0,
        12, 6, 11, 24, 4, 23, 36, 2, 35, 47, 9, 0, 59, 7, 58,
        13, 5, 12, 25, 10, 0, 38, 5, 37, 50, 10, 0, 63, 5, 62,
        13, 1, 12, 25, 3, 24, 37, 5, 36, 49, 7, 48, 61, 9, 60,
    ];
    proof {
        assert(t@ =~= gm_e1b3e2());
    }
    let base = (v - 1) * 15 + (e - 1) * 3;
    (t[base] as usize, t[base + 1] as usize, t[base + 2] as usize)
}

/// The ordered list of interleaved RS blocks for `version` at EC level `ec`.
pub fn blocks(version: Version, ec: EcLevel) -> (out: Vec<Block>)
    ensures
        out@ == blocks_spec(version.num(), level_number(ec)),
{
    let v = version.number() as usize;
    let e = ec.number();
    let (n1, b1, b2) = block_row(v);
    let (e1, b3, e2) = ec_row(v, e);
    proof {
        assert(n1 >= 18);
    }
    let n2 = n1 - 1;
    let num_blocks = b1 + b2;
    let mut out: Vec<Block> = Vec::new();
    let mut i: usize = 0;
    while i < num_blocks
        invariant
            i <= num_blocks,
            num_blocks == b1 + b2,
            n2 == n1 - 1,
            out@.len() == i,
            n1 == gm_n1()[v - 1],
            b1 == gm_b1()[v - 1],
            b2 == gm_b2()[v - 1],
            e1 == gm_e1b3e2()[(v - 1) * 15 + (e - 1) * 3],
            b3 == gm_e1b3e2()[(v - 1) * 15 + (e - 1) * 3 + 1],
            e2 == gm_e1b3e2()[(v - 1) * 15 + (e - 1) * 3 + 2],
            v == version.num(),
            e == level_number(ec),
            forall|j: int| 0 <= j < i ==> #[trigger] out@[j] == blocks_spec(v as int, e as int)[j],
        decreases num_blocks - i,
    {
        let total = if i < b1 { n1 } else { n2 };
        let ecw = if i < b3 { e1 } else { e2 };
        out.push(Block { total, ec: ecw });
        i = i + 1;
    }
    proof {
        assert(out@ =~= blocks_spec(v as int, e as int));
    }
    out
}

/// The smallest version whose data capacity at `ec` holds `data_cw` codewords.
pub fn smallest_version_for(data_cw: usize, ec: EcLevel) -> (r: Option<Version>)
    ensures
        r matches Some(ver) ==> data_cws_spec(ver.num(), level_number(ec)) > 0
            && data_cws_spec(ver.num(), level_number(ec)) >= data_cw
            && forall|w: int| 1 <= w < ver.num() ==> !(data_cws_spec(w, level_number(ec)) > 0
                && data_cws_spec(w, level_number(ec)) >= data_cw),
        r is None ==> forall|w: int| 1 <= w <= 13 ==> !(data_cws_spec(w, level_number(ec)) > 0
            && data_cws_spec(w, level_number(ec)) >= data_cw),
{
    let mut v: u8 = 1;
    while v <= 13
        invariant
            1 <= v <= 14,
            forall|w: int| 1 <= w < v ==> !(data_cws_spec(w, level_number(ec)) > 0
                && data_cws_spec(w, level_number(ec)) >= data_cw),
        decreases 14 - v,
    {
        let ver = Version(v);
        let cap = ver.data_codewords(ec);
        if cap > 0 && cap >= data_cw {
            return Some(ver);
        }
        v = v + 1;
    }
    None
}


/// The block structure of version `v` at level number `e` is consistent: the blocks
/// hold the whole symbol, their data parts hold the data capacity, and each block
/// carries at least one EC codeword and at least one data codeword.
pub open spec fn table_ok(v: int, e: int) -> bool {
    let idx = v - 1;
    let n1 = gm_n1()[idx] as int;
    let b1 = gm_b1()[idx] as int;
    let b2 = gm_b2()[idx] as int;
    let base = idx * 15 + (e - 1) * 3;
    let e1 = gm_e1b3e2()[base] as int;
    let b3 = gm_e1b3e2()[base + 1] as int;
    let e2 = gm_e1b3e2()[base + 2] as int;
    &&& 1 <= b1
    &&& 2 <= n1
    &&& b1 * n1 + b2 * (n1 - 1) == 2 * (2 * v + 1) * (2 * v + 1)
    &&& 1 <= b3 <= b1 + b2
    &&& 1 <= e1 < n1 - 1
    &&& (b3 < b1 + b2 ==> 1 <= e2 < n1 - 1)
    &&& b1 * n1 + b2 * (n1 - 1) - (b3 * e1 + (b1 + b2 - b3) * e2) == data_cws_spec(v, e)
}

/// Every defined version and level has a consistent block structure.
pub proof fn lemma_tables_consistent(v: int, e: int)
    requires
        1 <= v <= 13,
        1 <= e <= 5,
        data_cws_spec(v, e) > 0,
    ensures
        table_ok(v, e),
{
    if v == 1 {
        assert(data_cws_spec(1, 1) == 0);
        lemma_tables_v1();
    } else if v == 2 {
        lemma_tables_v2();
    } else if v == 3 {
        lemma_tables_v3();
    } else if v == 4 {
        lemma_tables_v4();
    } else if v == 5 {
        lemma_tables_v5();
    } else if v == 6 {
        lemma_tables_v6();
    } else if v == 7 {
        lemma_tables_v7();
    } else if v == 8 {
        lemma_tables_v8();
    } else if v == 9 {
        lemma_tables_v9();
    } else if v == 10 {
        lemma_tables_v10();
    } else if v == 11 {
        lemma_tables_v11();
    } else if v == 12 {
        lemma_tables_v12();
    } else if v == 13 {
        lemma_tables_v13();
    }
}

#[verifier::spinoff_prover]
proof fn lemma_tables_v1()
    ensures
        table_ok(1, 2),
        table_ok(1, 3),
        table_ok(1, 4),
        table_ok(1, 5),
{
    assert(gm_n1()[0] == 18 && gm_b1()[0] == 1 && gm_b2()[0] == 0);
    assert((gm_b1()[0] as int) * (gm_n1()[0] as int) == 18) by (nonlinear_arith)
        requires
            gm_b1()[0] == 1,
            gm_n1()[0] == 18,
    ;
    assert((gm_b2()[0] as int) * ((gm_n1()[0] as int) - 1) == 0) by (nonlinear_arith)
        requires
            gm_b2()[0] == 0,
            gm_n1()[0] == 18,
    ;
    assert(gm_e1b3e2()[3] == 3 && gm_e1b3e2()[4] == 1 && gm_e1b3e2()[5] == 0);
    assert((gm_e1b3e2()[4] as int) * (gm_e1b3e2()[3] as int) == 3) by (nonlinear_arith)
        requires
            gm_e1b3e2()[3] == 3,
            gm_e1b3e2()[4] == 1,
    ;
    assert(((gm_b1()[0] as int) + (gm_b2()[0] as int) - (gm_e1b3e2()[4] as int)) * (gm_e1b3e2()[5] as int) == 0) by (nonlinear_arith)
        requires
            gm_b1()[0] == 1,
            gm_b2()[0] == 0,
            gm_e1b3e2()[4] == 1,
            gm_e1b3e2()[5] == 0,
    ;
    assert(table_ok(1, 2));
    assert(gm_e1b3e2()[6] == 5 && gm_e1b3e2()[7] == 1 && gm_e1b3e2()[8] == 0);
    assert((gm_e1b3e2()[7] as int) * (gm_e1b3e2()[6] as int) == 5) by (nonlinear_arith)
        requires
            gm_e1b3e2()[6] == 5,
            gm_e1b3e2()[7] == 1,
    ;
    assert(((gm_b1()[0] as int) + (gm_b2()[0] as int) - (gm_e1b3e2()[7] as int)) * (gm_e1b3e2()[8] as int) == 0) by (nonlinear_arith)
        requires
            gm_b1()[0] == 1,
            gm_b2()[0] == 0,
            gm_e1b3e2()[7] == 1,
            gm_e1b3e2()[8] == 0,
    ;
    assert(table_ok(1, 3));
    assert(gm_e1b3e2()[9] == 7 && gm_e1b3e2()[10] == 1 && gm_e1b3e2()[11] == 0);
    assert((gm_e1b3e2()[10] as int) * (gm_e1b3e2()[9] as int) == 7) by (nonlinear_arith)
        requires
            gm_e1b3e2()[9] == 7,
            gm_e1b3e2()[10] == 1,
    ;
    assert(((gm_b1()[0] as int) + (gm_b2()[0] as int) - (gm_e1b3e2()[10] as int)) * (gm_e1b3e2()[11] as int) == 0) by (nonlinear_arith)
        requires
            gm_b1()[0] == 1,
            gm_b2()[0] == 0,
            gm_e1b3e2()[10] == 1,
            gm_e1b3e2()[11] == 0,
    ;
    assert(table_ok(1, 4));
    assert(gm_e1b3e2()[12] == 9 && gm_e1b3e2()[13] == 1 && gm_e1b3e2()[14] == 0);
    assert((gm_e1b3e2()[13] as int) * (gm_e1b3e2()[12] as int) == 9) by (nonlinear_arith)
        requires
            gm_e1b3e2()[12] == 9,
            gm_e1b3e2()[13] == 1,
    ;
    assert(((gm_b1()[0] as int) + (gm_b2()[0] as int) - (gm_e1b3e2()[13] as int)) * (gm_e1b3e2()[14] as int) == 0) by (nonlinear_arith)
        requires
            gm_b1()[0] == 1,
            gm_b2()[0] == 0,
            gm_e1b3e2()[13] == 1,
            gm_e1b3e2()[14] == 0,
    ;
    assert(table_ok(1, 5));
}

#[verifier::spinoff_prover]
proof fn lemma_tables_v2()
    ensures
        table_ok(2, 1),
        table_ok(2, 2),
        table_ok(2, 3),
        table_ok(2, 4),
        table_ok(2, 5),
{
    assert(gm_n1()[1] == 50 && gm_b1()[1] == 1 && gm_b2()[1] == 0);
    assert((gm_b1()[1] as int) * (gm_n1()[1] as int) == 50) by (nonlinear_arith)
        requires
            gm_b1()[1] == 1,
            gm_n1()[1] == 50,
    ;
    assert((gm_b2()[1] as int) * ((gm_n1()[1] as int) - 1) == 0) by (nonlinear_arith)
        requires
            gm_b2()[1] == 0,
            gm_n1()[1] == 50,
    ;
    assert(gm_e1b3e2()[15] == 5 && gm_e1b3e2()[16] == 1 && gm_e1b3e2()[17] == 0);
    assert((gm_e1b3e2()[16] as int) * (gm_e1b3e2()[15] as int) == 5) by (nonlinear_arith)
        requires
            gm_e1b3e2()[15] == 5,
            gm_e1b3e2()[16] == 1,
    ;
    assert(((gm_b1()[1] as int) + (gm_b2()[1] as int) - (gm_e1b3e2()[16] as int)) * (gm_e1b3e2()[17] as int) == 0) by (nonlinear_arith)
        requires
            gm_b1()[1] == 1,
            gm_b2()[1] == 0,
            gm_e1b3e2()[16] == 1,
            gm_e1b3e2()[17] == 0,
    ;
    assert(table_ok(2, 1));
    assert(gm_e1b3e2()[18] == 10 && gm_e1b3e2()[19] == 1 && gm_e1b3e2()[20] == 0);
    assert((gm_e1b3e2()[19] as int) * (gm_e1b3e2()[18] as int) == 10) by (nonlinear_arith)
        requires
            gm_e1b3e2()[18] == 10,
            gm_e1b3e2()[19] == 1,
    ;
    assert(((gm_b1()[1] as int) + (gm_b2()[1] as int) - (gm_e1b3e2()[19] as int)) * (gm_e1b3e2()[20] as int) == 0) by (nonlinear_arith)
        requires
            gm_b1()[1] == 1,
            gm_b2()[1] == 0,
            gm_e1b3e2()[19] == 1,
            gm_e1b3e2()[20] == 0,
    ;
    assert(table_ok(2, 2));
    assert(gm_e1b3e2()[21] == 15 && gm_e1b3e2()[22] == 1 && gm_e1b3e2()[23] == 0);
    assert((gm_e1b3e2()[22] as int) * (gm_e1b3e2()[21] as int) == 15) by (nonlinear_arith)
        requires
            gm_e1b3e2()[21] == 15,
            gm_e1b3e2()[22] == 1,
    ;
    assert(((gm_b1()[1] as int) + (gm_b2()[1] as int) - (gm_e1b3e2()[22] as int)) * (gm_e1b3e2()[23] as int) == 0) by (nonlinear_arith)
        requires
            gm_b1()[1] == 1,
            gm_b2()[1] == 0,
            gm_e1b3e2()[22] == 1,
            gm_e1b3e2()[23] == 0,
    ;
    assert(table_ok(2, 3));
    assert(gm_e1b3e2()[24] == 20 && gm_e1b3e2()[25] == 1 && gm_e1b3e2()[26] == 0);
    assert((gm_e1b3e2()[25] as int) * (gm_e1b3e2()[24] as int) == 20) by (nonlinear_arith)
        requires
            gm_e1b3e2()[24] == 20,
            gm_e1b3e2()[25] == 1,
    ;
    assert(((gm_b1()[1] as int) + (gm_b2()[1] as int) - (gm_e1b3e2()[25] as int)) * (gm_e1b3e2()[26] as int) == 0) by (nonlinear_arith)
        requires
            gm_b1()[1] == 1,
            gm_b2()[1] == 0,
            gm_e1b3e2()[25] == 1,
            gm_e1b3e2()[26] == 0,
    ;
    assert(table_ok(2, 4));
    assert(gm_e1b3e2()[27] == 25 && gm_e1b3e2()[28] == 1 && gm_e1b3e2()[29] == 0);
    assert((gm_e1b3e2()[28] as int) * (gm_e1b3e2()[27] as int) == 25) by (nonlinear_arith)
        requires
            gm_e1b3e2()[27] == 25,
            gm_e1b3e2()[28] == 1,
    ;
    assert(((gm_b1()[1] as int) + (gm_b2()[1] as int) - (gm_e1b3e2()[28] as int)) * (gm_e1b3e2()[29] as int) == 0) by (nonlinear_arith)
        requires
            gm_b1()[1] == 1,
            gm_b2()[1] == 0,
            gm_e1b3e2()[28] == 1,
            gm_e1b3e2()[29] == 0,
    ;
    assert(table_ok(2, 5));
}

#[verifier::spinoff_prover]
proof fn lemma_tables_v3()
    ensures
        table_ok(3, 1),
        table_ok(3, 2),
        table_ok(3, 3),
        table_ok(3, 4),
        table_ok(3, 5),
{
    assert(gm_n1()[2] == 98 && gm_b1()[2] == 1 && gm_b2()[2] == 0);
    assert((gm_b1()[2] as int) * (gm_n1()[2] as int) == 98) by (nonlinear_arith)
        requires
            gm_b1()[2] == 1,
            gm_n1()[2] == 98,
    ;
    assert((gm_b2()[2] as int) * ((gm_n1()[2] as int) - 1) == 0) by (nonlinear_arith)
        requires
            gm_b2()[2] == 0,
            gm_n1()[2] == 98,
    ;
    assert(gm_e1b3e2()[30] == 9 && gm_e1b3e2()[31] == 1 && gm_e1b3e2()[32] == 0);
    assert((gm_e1b3e2()[31] as int) * (gm_e1b3e2()[30] as int) == 9) by (nonlinear_arith)
        requires
            gm_e1b3e2()[30] == 9,
            gm_e1b3e2()[31] == 1,
    ;
    assert(((gm_b1()[2] as int) + (gm_b2()[2] as int) - (gm_e1b3e2()[31] as int)) * (gm_e1b3e2()[32] as int) == 0) by (nonlinear_arith)
        requires
            gm_b1()[2] == 1,
            gm_b2()[2] == 0,
            gm_e1b3e2()[31] == 1,
            gm_e1b3e2()[32] == 0,
    ;
    assert(table_ok(3, 1));
    assert(gm_e1b3e2()[33] == 19 && gm_e1b3e2()[34] == 1 && gm_e1b3e2()[35] == 0);
    assert((gm_e1b3e2()[34] as int) * (gm_e1b3e2()[33] as int) == 19) by (nonlinear_arith)
        requires
            gm_e1b3e2()[33] == 19,
            gm_e1b3e2()[34] == 1,
    ;
    assert(((gm_b1()[2] as int) + (gm_b2()[2] as int) - (gm_e1b3e2()[34] as int)) * (gm_e1b3e2()[35] as int) == 0) by (nonlinear_arith)
        requires
            gm_b1()[2] == 1,
            gm_b2()[2] == 0,
            gm_e1b3e2()[34] == 1,
            gm_e1b3e2()[35] == 0,
    ;
    assert(table_ok(3, 2));
    assert(gm_e1b3e2()[36] == 29 && gm_e1b3e2()[37] == 1 && gm_e1b3e2()[38] == 0);
    assert((gm_e1b3e2()[37] as int) * (gm_e1b3e2()[36] as int) == 29) by (nonlinear_arith)
        requires
            gm_e1b3e2()[36] == 29,
            gm_e1b3e2()[37] == 1,
    ;
    assert(((gm_b1()[2] as int) + (gm_b2()[2] as int) - (gm_e1b3e2()[37] as int)) * (gm_e1b3e2()[38] as int) == 0) by (nonlinear_arith)
        requires
            gm_b1()[2] == 1,
            gm_b2()[2] == 0,
            gm_e1b3e2()[37] == 1,
            gm_e1b3e2()[38] == 0,
    ;
    assert(table_ok(3, 3));
    assert(gm_e1b3e2()[39] == 39 && gm_e1b3e2()[40] == 1 && gm_e1b3e2()[41] == 0);
    assert((gm_e1b3e2()[40] as int) * (gm_e1b3e2()[39] as int) == 39) by (nonlinear_arith)
        requires
            gm_e1b3e2()[39] == 39,
            gm_e1b3e2()[40] == 1,
    ;
    assert(((gm_b1()[2] as int) + (gm_b2()[2] as int) - (gm_e1b3e2()[40] as int)) * (gm_e1b3e2()[41] as int) == 0) by (nonlinear_arith)
        requires
            gm_b1()[2] == 1,
            gm_b2()[2] == 0,
            gm_e1b3e2()[40] == 1,
            gm_e1b3e2()[41] == 0,
    ;
    assert(table_ok(3, 4));
    assert(gm_e1b3e2()[42] == 49 && gm_e1b3e2()[43] == 1 && gm_e1b3e2()[44] == 0);
    assert((gm_e1b3e2()[43] as int) * (gm_e1b3e2()[42] as int) == 49) by (nonlinear_arith)
        requires
            gm_e1b3e2()[42] == 49,
            gm_e1b3e2()[43] == 1,
    ;
    assert(((gm_b1()[2] as int) + (gm_b2()[2] as int) - (gm_e1b3e2()[43] as int)) * (gm_e1b3e2()[44] as int) == 0) by (nonlinear_arith)
        requires
            gm_b1()[2] == 1,
            gm_b2()[2] == 0,
            gm_e1b3e2()[43] == 1,
            gm_e1b3e2()[44] == 0,
    ;
    assert(table_ok(3, 5));
}

#[verifier::spinoff_prover]
proof fn lemma_tables_v4()
    ensures
        table_ok(4, 1),
        table_ok(4, 2),
        table_ok(4, 3),
        table_ok(4, 4),
        table_ok(4, 5),
{
    assert(gm_n1()[3] == 81 && gm_b1()[3] == 2 && gm_b2()[3] == 0);
    assert((gm_b1()[3] as int) * (gm_n1()[3] as int) == 162) by (nonlinear_arith)
        requires
            gm_b1()[3] == 2,
            gm_n1()[3] == 81,
    ;
    assert((gm_b2()[3] as int) * ((gm_n1()[3] as int) - 1) == 0) by (nonlinear_arith)
        requires
            gm_b2()[3] == 0,
            gm_n1()[3] == 81,
    ;
    assert(gm_e1b3e2()[45] == 8 && gm_e1b3e2()[46] == 2 && gm_e1b3e2()[47] == 0);
    assert((gm_e1b3e2()[46] as int) * (gm_e1b3e2()[45] as int) == 16) by (nonlinear_arith)
        requires
            gm_e1b3e2()[45] == 8,
            gm_e1b3e2()[46] == 2,
    ;
    assert(((gm_b1()[3] as int) + (gm_b2()[3] as int) - (gm_e1b3e2()[46] as int)) * (gm_e1b3e2()[47] as int) == 0) by (nonlinear_arith)
        requires
            gm_b1()[3] == 2,
            gm_b2()[3] == 0,
            gm_e1b3e2()[46] == 2,
            gm_e1b3e2()[47] == 0,
    ;
    assert(table_ok(4, 1));
    assert(gm_e1b3e2()[48] == 16 && gm_e1b3e2()[49] == 2 && gm_e1b3e2()[50] == 0);
    assert((gm_e1b3e2()[49] as int) * (gm_e1b3e2()[48] as int) == 32) by (nonlinear_arith)
        requires
            gm_e1b3e2()[48] == 16,
            gm_e1b3e2()[49] == 2,
    ;
    assert(((gm_b1()[3] as int) + (gm_b2()[3] as int) - (gm_e1b3e2()[49] as int)) * (gm_e1b3e2()[50] as int) == 0) by (nonlinear_arith)
        requires
            gm_b1()[3] == 2,
            gm_b2()[3] == 0,
            gm_e1b3e2()[49] == 2,
            gm_e1b3e2()[50] == 0,
    ;
    assert(table_ok(4, 2));
    assert(gm_e1b3e2()[51] == 24 && gm_e1b3e2()[52] == 2 && gm_e1b3e2()[53] == 0);
    assert((gm_e1b3e2()[52] as int) * (gm_e1b3e2()[51] as int) == 48) by (nonlinear_arith)
        requires
            gm_e1b3e2()[51] == 24,
            gm_e1b3e2()[52] == 2,
    ;
    assert(((gm_b1()[3] as int) + (gm_b2()[3] as int) - (gm_e1b3e2()[52] as int)) * (gm_e1b3e2()[53] as int) == 0) by (nonlinear_arith)
        requires
            gm_b1()[3] == 2,
            gm_b2()[3] == 0,
            gm_e1b3e2()[52] == 2,
            gm_e1b3e2()[53] == 0,
    ;
    assert(table_ok(4, 3));
    assert(gm_e1b3e2()[54] == 32 && gm_e1b3e2()[55] == 2 && gm_e1b3e2()[56] == 0);
    assert((gm_e1b3e2()[55] as int) * (gm_e1b3e2()[54] as int) == 64) by (nonlinear_arith)
        requires
            gm_e1b3e2()[54] == 32,
            gm_e1b3e2()[55] == 2,
    ;
    assert(((gm_b1()[3] as int) + (gm_b2()[3] as int) - (gm_e1b3e2()[55] as int)) * (gm_e1b3e2()[56] as int) == 0) by (nonlinear_arith)
        requires
            gm_b1()[3] == 2,
            gm_b2()[3] == 0,
            gm_e1b3e2()[55] == 2,
            gm_e1b3e2()[56] == 0,
    ;
    assert(table_ok(4, 4));
    assert(gm_e1b3e2()[57] == 41 && gm_e1b3e2()[58] == 1 && gm_e1b3e2()[59] == 40);
    assert((gm_e1b3e2()[58] as int) * (gm_e1b3e2()[57] as int) == 41) by (nonlinear_arith)
        requires
            gm_e1b3e2()[57] == 41,
            gm_e1b3e2()[58] == 1,
    ;
    assert(((gm_b1()[3] as int) + (gm_b2()[3] as int) - (gm_e1b3e2()[58] as int)) * (gm_e1b3e2()[59] as int) == 40) by (nonlinear_arith)
        requires
            gm_b1()[3] == 2,
            gm_b2()[3] == 0,
            gm_e1b3e2()[58] == 1,
            gm_e1b3e2()[59] == 40,
    ;
    assert(table_ok(4, 5));
}

#[verifier::spinoff_prover]
proof fn lemma_tables_v5()
    ensures
        table_ok(5, 1),
        table_ok(5, 2),
        table_ok(5, 3),
        table_ok(5, 4),
        table_ok(5, 5),
{
    assert(gm_n1()[4] == 121 && gm_b1()[4] == 2 && gm_b2()[4] == 0);
    assert((gm_b1()[4] as int) * (gm_n1()[4] as int) == 242) by (nonlinear_arith)
        requires
            gm_b1()[4] == 2,
            gm_n1()[4] == 121,
    ;
    assert((gm_b2()[4] as int) * ((gm_n1()[4] as int) - 1) == 0) by (nonlinear_arith)
        requires
            gm_b2()[4] == 0,
            gm_n1()[4] == 121,
    ;
    assert(gm_e1b3e2()[60] == 12 && gm_e1b3e2()[61] == 2 && gm_e1b3e2()[62] == 0);
    assert((gm_e1b3e2()[61] as int) * (gm_e1b3e2()[60] as int) == 24) by (nonlinear_arith)
        requires
            gm_e1b3e2()[60] == 12,
            gm_e1b3e2()[61] == 2,
    ;
    assert(((gm_b1()[4] as int) + (gm_b2()[4] as int) - (gm_e1b3e2()[61] as int)) * (gm_e1b3e2()[62] as int) == 0) by (nonlinear_arith)
        requires
            gm_b1()[4] == 2,
            gm_b2()[4] == 0,
            gm_e1b3e2()[61] == 2,
            gm_e1b3e2()[62] == 0,
    ;
    assert(table_ok(5, 1));
    assert(gm_e1b3e2()[63] == 24 && gm_e1b3e2()[64] == 2 && gm_e1b3e2()[65] == 0);
    assert((gm_e1b3e2()[64] as int) * (gm_e1b3e2()[63] as int) == 48) by (nonlinear_arith)
        requires
            gm_e1b3e2()[63] == 24,
            gm_e1b3e2()[64] == 2,
    ;
    assert(((gm_b1()[4] as int) + (gm_b2()[4] as int) - (gm_e1b3e2()[64] as int)) * (gm_e1b3e2()[65] as int) == 0) by (nonlinear_arith)
        requires
            gm_b1()[4] == 2,
            gm_b2()[4] == 0,
            gm_e1b3e2()[64] == 2,
            gm_e1b3e2()[65] == 0,
    ;
    assert(table_ok(5, 2));
    assert(gm_e1b3e2()[66] == 36 && gm_e1b3e2()[67] == 2 && gm_e1b3e2()[68] == 0);
    assert((gm_e1b3e2()[67] as int) * (gm_e1b3e2()[66] as int) == 72) by (nonlinear_arith)
        requires
            gm_e1b3e2()[66] == 36,
            gm_e1b3e2()[67] == 2,
    ;
    assert(((gm_b1()[4] as int) + (gm_b2()[4] as int) - (gm_e1b3e2()[67] as int)) * (gm_e1b3e2()[68] as int) == 0) by (nonlinear_arith)
        requires
            gm_b1()[4] == 2,
            gm_b2()[4] == 0,
            gm_e1b3e2()[67] == 2,
            gm_e1b3e2()[68] == 0,
    ;
    assert(table_ok(5, 3));
    assert(gm_e1b3e2()[69] == 48 && gm_e1b3e2()[70] == 2 && gm_e1b3e2()[71] == 0);
    assert((gm_e1b3e2()[70] as int) * (gm_e1b3e2()[69] as int) == 96) by (nonlinear_arith)
        requires
            gm_e1b3e2()[69] == 48,
            gm_e1b3e2()[70] == 2,
    ;
    assert(((gm_b1()[4] as int) + (gm_b2()[4] as int) - (gm_e1b3e2()[70] as int)) * (gm_e1b3e2()[71] as int) == 0) by (nonlinear_arith)
        requires
            gm_b1()[4] == 2,
            gm_b2()[4] == 0,
            gm_e1b3e2()[70] == 2,
            gm_e1b3e2()[71] == 0,
    ;
    assert(table_ok(5, 4));
    assert(gm_e1b3e2()[72] == 61 && gm_e1b3e2()[73] == 1 && gm_e1b3e2()[74] == 60);
    assert((gm_e1b3e2()[73] as int) * (gm_e1b3e2()[72] as int) == 61) by (nonlinear_arith)
        requires
            gm_e1b3e2()[72] == 61,
            gm_e1b3e2()[73] == 1,
    ;
    assert(((gm_b1()[4] as int) + (gm_b2()[4] as int) - (gm_e1b3e2()[73] as int)) * (gm_e1b3e2()[74] as int) == 60) by (nonlinear_arith)
        requires
            gm_b1()[4] == 2,
            gm_b2()[4] == 0,
            gm_e1b3e2()[73] == 1,
            gm_e1b3e2()[74] == 60,
    ;
    assert(table_ok(5, 5));
}

#[verifier::spinoff_prover]
proof fn lemma_tables_v6()
    ensures
        table_ok(6, 1),
        table_ok(6, 2),
        table_ok(6, 3),
        table_ok(6, 4),
        table_ok(6, 5),
{
    assert(gm_n1()[5] == 113 && gm_b1()[5] == 2 && gm_b2()[5] == 1);
    assert((gm_b1()[5] as int) * (gm_n1()[5] as int) == 226) by (nonlinear_arith)
        requires
            gm_b1()[5] == 2,
            gm_n1()[5] == 113,
    ;
    assert((gm_b2()[5] as int) * ((gm_n1()[5] as int) - 1) == 112) by (nonlinear_arith)
        requires
            gm_b2()[5] == 1,
            gm_n1()[5] == 113,
    ;
    assert(gm_e1b3e2()[75] == 11 && gm_e1b3e2()[76] == 3 && gm_e1b3e2()[77] == 0);
    assert((gm_e1b3e2()[76] as int) * (gm_e1b3e2()[75] as int) == 33) by (nonlinear_arith)
        requires
            gm_e1b3e2()[75] == 11,
            gm_e1b3e2()[76] == 3,
    ;
    assert(((gm_b1()[5] as int) + (gm_b2()[5] as int) - (gm_e1b3e2()[76] as int)) * (gm_e1b3e2()[77] as int) == 0) by (nonlinear_arith)
        requires
            gm_b1()[5] == 2,
            gm_b2()[5] == 1,
            gm_e1b3e2()[76] == 3,
            gm_e1b3e2()[77] == 0,
    ;
    assert(table_ok(6, 1));
    assert(gm_e1b3e2()[78] == 23 && gm_e1b3e2()[79] == 1 && gm_e1b3e2()[80] == 22);
    assert((gm_e1b3e2()[79] as int) * (gm_e1b3e2()[78] as int) == 23) by (nonlinear_arith)
        requires
            gm_e1b3e2()[78] == 23,
            gm_e1b3e2()[79] == 1,
    ;
    assert(((gm_b1()[5] as int) + (gm_b2()[5] as int) - (gm_e1b3e2()[79] as int)) * (gm_e1b3e2()[80] as int) == 44) by (nonlinear_arith)
        requires
            gm_b1()[5] == 2,
            gm_b2()[5] == 1,
            gm_e1b3e2()[79] == 1,
            gm_e1b3e2()[80] == 22,
    ;
    assert(table_ok(6, 2));
    assert(gm_e1b3e2()[81] == 34 && gm_e1b3e2()[82] == 2 && gm_e1b3e2()[83] == 33);
    assert((gm_e1b3e2()[82] as int) * (gm_e1b3e2()[81] as int) == 68) by (nonlinear_arith)
        requires
            gm_e1b3e2()[81] == 34,
            gm_e1b3e2()[82] == 2,
    ;
    assert(((gm_b1()[5] as int) + (gm_b2()[5] as int) - (gm_e1b3e2()[82] as int)) * (gm_e1b3e2()[83] as int) == 33) by (nonlinear_arith)
        requires
            gm_b1()[5] == 2,
            gm_b2()[5] == 1,
            gm_e1b3e2()[82] == 2,
            gm_e1b3e2()[83] == 33,
    ;
    assert(table_ok(6, 3));
    assert(gm_e1b3e2()[84] == 45 && gm_e1b3e2()[85] == 3 && gm_e1b3e2()[86] == 0);
    assert((gm_e1b3e2()[85] as int) * (gm_e1b3e2()[84] as int) == 135) by (nonlinear_arith)
        requires
            gm_e1b3e2()[84] == 45,
            gm_e1b3e2()[85] == 3,
    ;
    assert(((gm_b1()[5] as int) + (gm_b2()[5] as int) - (gm_e1b3e2()[85] as int)) * (gm_e1b3e2()[86] as int) == 0) by (nonlinear_arith)
        requires
            gm_b1()[5] == 2,
            gm_b2()[5] == 1,
            gm_e1b3e2()[85] == 3,
            gm_e1b3e2()[86] == 0,
    ;
    assert(table_ok(6, 4));
    assert(gm_e1b3e2()[87] == 57 && gm_e1b3e2()[88] == 1 && gm_e1b3e2()[89] == 56);
    assert((gm_e1b3e2()[88] as int) * (gm_e1b3e2()[87] as int) == 57) by (nonlinear_arith)
        requires
            gm_e1b3e2()[87] == 57,
            gm_e1b3e2()[88] == 1,
    ;
    assert(((gm_b1()[5] as int) + (gm_b2()[5] as int) - (gm_e1b3e2()[88] as int)) * (gm_e1b3e2()[89] as int) == 112) by (nonlinear_arith)
        requires
            gm_b1()[5] == 2,
            gm_b2()[5] == 1,
            gm_e1b3e2()[88] == 1,
            gm_e1b3e2()[89] == 56,
    ;
    assert(table_ok(6, 5));
}

#[verifier::spinoff_prover]
proof fn lemma_tables_v7()
    ensures
        table_ok(7, 1),
        table_ok(7, 2),
        table_ok(7, 3),
        table_ok(7, 4),
        table_ok(7, 5),
{
    assert(gm_n1()[6] == 113 && gm_b1()[6] == 2 && gm_b2()[6] == 2);
    assert((gm_b1()[6] as int) * (gm_n1()[6] as int) == 226) by (nonlinear_arith)
        requires
            gm_b1()[6] == 2,
            gm_n1()[6] == 113,
    ;
    assert((gm_b2()[6] as int) * ((gm_n1()[6] as int) - 1) == 224) by (nonlinear_arith)
        requires
            gm_b2()[6] == 2,
            gm_n1()[6] == 113,
    ;
    assert(gm_e1b3e2()[90] == 12 && gm_e1b3e2()[91] == 1 && gm_e1b3e2()[92] == 11);
    assert((gm_e1b3e2()[91] as int) * (gm_e1b3e2()[90] as int) == 12) by (nonlinear_arith)
        requires
            gm_e1b3e2()[90] == 12,
            gm_e1b3e2()[91] == 1,
    ;
    assert(((gm_b1()[6] as int) + (gm_b2()[6] as int) - (gm_e1b3e2()[91] as int)) * (gm_e1b3e2()[92] as int) == 33) by (nonlinear_arith)
        requires
            gm_b1()[6] == 2,
            gm_b2()[6] == 2,
            gm_e1b3e2()[91] == 1,
            gm_e1b3e2()[92] == 11,
    ;
    assert(table_ok(7, 1));
    assert(gm_e1b3e2()[93] == 23 && gm_e1b3e2()[94] == 2 && gm_e1b3e2()[95] == 22);
    assert((gm_e1b3e2()[94] as int) * (gm_e1b3e2()[93] as int) == 46) by (nonlinear_arith)
        requires
            gm_e1b3e2()[93] == 23,
            gm_e1b3e2()[94] == 2,
    ;
    assert(((gm_b1()[6] as int) + (gm_b2()[6] as int) - (gm_e1b3e2()[94] as int)) * (gm_e1b3e2()[95] as int) == 44) by (nonlinear_arith)
        requires
            gm_b1()[6] == 2,
            gm_b2()[6] == 2,
            gm_e1b3e2()[94] == 2,
            gm_e1b3e2()[95] == 22,
    ;
    assert(table_ok(7, 2));
    assert(gm_e1b3e2()[96] == 34 && gm_e1b3e2()[97] == 3 && gm_e1b3e2()[98] == 33);
    assert((gm_e1b3e2()[97] as int) * (gm_e1b3e2()[96] as int) == 102) by (nonlinear_arith)
        requires
            gm_e1b3e2()[96] == 34,
            gm_e1b3e2()[97] == 3,
    ;
    assert(((gm_b1()[6] as int) + (gm_b2()[6] as int) - (gm_e1b3e2()[97] as int)) * (gm_e1b3e2()[98] as int) == 33) by (nonlinear_arith)
        requires
            gm_b1()[6] == 2,
            gm_b2()[6] == 2,
            gm_e1b3e2()[97] == 3,
            gm_e1b3e2()[98] == 33,
    ;
    assert(table_ok(7, 3));
    assert(gm_e1b3e2()[99] == 45 && gm_e1b3e2()[100] == 4 && gm_e1b3e2()[101] == 0);
    assert((gm_e1b3e2()[100] as int) * (gm_e1b3e2()[99] as int) == 180) by (nonlinear_arith)
        requires
            gm_e1b3e2()[99] == 45,
            gm_e1b3e2()[100] == 4,
    ;
    assert(((gm_b1()[6] as int) + (gm_b2()[6] as int) - (gm_e1b3e2()[100] as int)) * (gm_e1b3e2()[101] as int) == 0) by (nonlinear_arith)
        requires
            gm_b1()[6] == 2,
            gm_b2()[6] == 2,
            gm_e1b3e2()[100] == 4,
            gm_e1b3e2()[101] == 0,
    ;
    assert(table_ok(7, 4));
    assert(gm_e1b3e2()[102] == 57 && gm_e1b3e2()[103] == 1 && gm_e1b3e2()[104] == 56);
    assert((gm_e1b3e2()[103] as int) * (gm_e1b3e2()[102] as int) == 57) by (nonlinear_arith)
        requires
            gm_e1b3e2()[102] == 57,
            gm_e1b3e2()[103] == 1,
    ;
    assert(((gm_b1()[6] as int) + (gm_b2()[6] as int) - (gm_e1b3e2()[103] as int)) * (gm_e1b3e2()[104] as int) == 168) by (nonlinear_arith)
        requires
            gm_b1()[6] == 2,
            gm_b2()[6] == 2,
            gm_e1b3e2()[103] == 1,
            gm_e1b3e2()[104] == 56,
    ;
    assert(table_ok(7, 5));
}

#[verifier::spinoff_prover]
proof fn lemma_tables_v8()
    ensures
        table_ok(8, 1),
        table_ok(8, 2),
        table_ok(8, 3),
        table_ok(8, 4),
        table_ok(8, 5),
{
    assert(gm_n1()[7] == 116 && gm_b1()[7] == 3 && gm_b2()[7] == 2);
    assert((gm_b1()[7] as int) * (gm_n1()[7] as int) == 348) by (nonlinear_arith)
        requires
            gm_b1()[7] == 3,
            gm_n1()[7] == 116,
    ;
    assert((gm_b2()[7] as int) * ((gm_n1()[7] as int) - 1) == 230) by (nonlinear_arith)
        requires
            gm_b2()[7] == 2,
            gm_n1()[7] == 116,
    ;
    assert(gm_e1b3e2()[105] == 12 && gm_e1b3e2()[106] == 2 && gm_e1b3e2()[107] == 11);
    assert((gm_e1b3e2()[106] as int) * (gm_e1b3e2()[105] as int) == 24) by (nonlinear_arith)
        requires
            gm_e1b3e2()[105] == 12,
            gm_e1b3e2()[106] == 2,
    ;
    assert(((gm_b1()[7] as int) + (gm_b2()[7] as int) - (gm_e1b3e2()[106] as int)) * (gm_e1b3e2()[107] as int) == 33) by (nonlinear_arith)
        requires
            gm_b1()[7] == 3,
            gm_b2()[7] == 2,
            gm_e1b3e2()[106] == 2,
            gm_e1b3e2()[107] == 11,
    ;
    assert(table_ok(8, 1));
    assert(gm_e1b3e2()[108] == 23 && gm_e1b3e2()[109] == 5 && gm_e1b3e2()[110] == 0);
    assert((gm_e1b3e2()[109] as int) * (gm_e1b3e2()[108] as int) == 115) by (nonlinear_arith)
        requires
            gm_e1b3e2()[108] == 23,
            gm_e1b3e2()[109] == 5,
    ;
    assert(((gm_b1()[7] as int) + (gm_b2()[7] as int) - (gm_e1b3e2()[109] as int)) * (gm_e1b3e2()[110] as int) == 0) by (nonlinear_arith)
        requires
            gm_b1()[7] == 3,
            gm_b2()[7] == 2,
            gm_e1b3e2()[109] == 5,
            gm_e1b3e2()[110] == 0,
    ;
    assert(table_ok(8, 2));
    assert(gm_e1b3e2()[111] == 35 && gm_e1b3e2()[112] == 3 && gm_e1b3e2()[113] == 34);
    assert((gm_e1b3e2()[112] as int) * (gm_e1b3e2()[111] as int) == 105) by (nonlinear_arith)
        requires
            gm_e1b3e2()[111] == 35,
            gm_e1b3e2()[112] == 3,
    ;
    assert(((gm_b1()[7] as int) + (gm_b2()[7] as int) - (gm_e1b3e2()[112] as int)) * (gm_e1b3e2()[113] as int) == 68) by (nonlinear_arith)
        requires
            gm_b1()[7] == 3,
            gm_b2()[7] == 2,
            gm_e1b3e2()[112] == 3,
            gm_e1b3e2()[113] == 34,
    ;
    assert(table_ok(8, 3));
    assert(gm_e1b3e2()[114] == 47 && gm_e1b3e2()[115] == 1 && gm_e1b3e2()[116] == 46);
    assert((gm_e1b3e2()[115] as int) * (gm_e1b3e2()[114] as int) == 47) by (nonlinear_arith)
        requires
            gm_e1b3e2()[114] == 47,
            gm_e1b3e2()[115] == 1,
    ;
    assert(((gm_b1()[7] as int) + (gm_b2()[7] as int) - (gm_e1b3e2()[115] as int)) * (gm_e1b3e2()[116] as int) == 184) by (nonlinear_arith)
        requires
            gm_b1()[7] == 3,
            gm_b2()[7] == 2,
            gm_e1b3e2()[115] == 1,
            gm_e1b3e2()[116] == 46,
    ;
    assert(table_ok(8, 4));
    assert(gm_e1b3e2()[117] == 58 && gm_e1b3e2()[118] == 4 && gm_e1b3e2()[119] == 57);
    assert((gm_e1b3e2()[118] as int) * (gm_e1b3e2()[117] as int) == 232) by (nonlinear_arith)
        requires
            gm_e1b3e2()[117] == 58,
            gm_e1b3e2()[118] == 4,
    ;
    assert(((gm_b1()[7] as int) + (gm_b2()[7] as int) - (gm_e1b3e2()[118] as int)) * (gm_e1b3e2()[119] as int) == 57) by (nonlinear_arith)
        requires
            gm_b1()[7] == 3,
            gm_b2()[7] == 2,
            gm_e1b3e2()[118] == 4,
            gm_e1b3e2()[119] == 57,
    ;
    assert(table_ok(8, 5));
}

#[verifier::spinoff_prover]
proof fn lemma_tables_v9()
    ensures
        table_ok(9, 1),
        table_ok(9, 2),
        table_ok(9, 3),
        table_ok(9, 4),
        table_ok(9, 5),
{
    assert(gm_n1()[8] == 121 && gm_b1()[8] == 2 && gm_b2()[8] == 4);
    assert((gm_b1()[8] as int) * (gm_n1()[8] as int) == 242) by (nonlinear_arith)
        requires
            gm_b1()[8] == 2,
            gm_n1()[8] == 121,
    ;
    assert((gm_b2()[8] as int) * ((gm_n1()[8] as int) - 1) == 480) by (nonlinear_arith)
        requires
            gm_b2()[8] == 4,
            gm_n1()[8] == 121,
    ;
    assert(gm_e1b3e2()[120] == 12 && gm_e1b3e2()[121] == 6 && gm_e1b3e2()[122] == 0);
    assert((gm_e1b3e2()[121] as int) * (gm_e1b3e2()[120] as int) == 72) by (nonlinear_arith)
        requires
            gm_e1b3e2()[120] == 12,
            gm_e1b3e2()[121] == 6,
    ;
    assert(((gm_b1()[8] as int) + (gm_b2()[8] as int) - (gm_e1b3e2()[121] as int)) * (gm_e1b3e2()[122] as int) == 0) by (nonlinear_arith)
        requires
            gm_b1()[8] == 2,
            gm_b2()[8] == 4,
            gm_e1b3e2()[121] == 6,
            gm_e1b3e2()[122] == 0,
    ;
    assert(table_ok(9, 1));
    assert(gm_e1b3e2()[123] == 24 && gm_e1b3e2()[124] == 6 && gm_e1b3e2()[125] == 0);
    assert((gm_e1b3e2()[124] as int) * (gm_e1b3e2()[123] as int) == 144) by (nonlinear_arith)
        requires
            gm_e1b3e2()[123] == 24,
            gm_e1b3e2()[124] == 6,
    ;
    assert(((gm_b1()[8] as int) + (gm_b2()[8] as int) - (gm_e1b3e2()[124] as int)) * (gm_e1b3e2()[125] as int) == 0) by (nonlinear_arith)
        requires
            gm_b1()[8] == 2,
            gm_b2()[8] == 4,
            gm_e1b3e2()[124] == 6,
            gm_e1b3e2()[125] == 0,
    ;
    assert(table_ok(9, 2));
    assert(gm_e1b3e2()[126] == 36 && gm_e1b3e2()[127] == 6 && gm_e1b3e2()[128] == 0);
    assert((gm_e1b3e2()[127] as int) * (gm_e1b3e2()[126] as int) == 216) by (nonlinear_arith)
        requires
            gm_e1b3e2()[126] == 36,
            gm_e1b3e2()[127] == 6,
    ;
    assert(((gm_b1()[8] as int) + (gm_b2()[8] as int) - (gm_e1b3e2()[127] as int)) * (gm_e1b3e2()[128] as int) == 0) by (nonlinear_arith)
        requires
            gm_b1()[8] == 2,
            gm_b2()[8] == 4,
            gm_e1b3e2()[127] == 6,
            gm_e1b3e2()[128] == 0,
    ;
    assert(table_ok(9, 3));
    assert(gm_e1b3e2()[129] == 48 && gm_e1b3e2()[130] == 6 && gm_e1b3e2()[131] == 0);
    assert((gm_e1b3e2()[130] as int) * (gm_e1b3e2()[129] as int) == 288) by (nonlinear_arith)
        requires
            gm_e1b3e2()[129] == 48,
            gm_e1b3e2()[130] == 6,
    ;
    assert(((gm_b1()[8] as int) + (gm_b2()[8] as int) - (gm_e1b3e2()[130] as int)) * (gm_e1b3e2()[131] as int) == 0) by (nonlinear_arith)
        requires
            gm_b1()[8] == 2,
            gm_b2()[8] == 4,
            gm_e1b3e2()[130] == 6,
            gm_e1b3e2()[131] == 0,
    ;
    assert(table_ok(9, 4));
    assert(gm_e1b3e2()[132] == 61 && gm_e1b3e2()[133] == 1 && gm_e1b3e2()[134] == 60);
    assert((gm_e1b3e2()[133] as int) * (gm_e1b3e2()[132] as int) == 61) by (nonlinear_arith)
        requires
            gm_e1b3e2()[132] == 61,
            gm_e1b3e2()[133] == 1,
    ;
    assert(((gm_b1()[8] as int) + (gm_b2()[8] as int) - (gm_e1b3e2()[133] as int)) * (gm_e1b3e2()[134] as int) == 300) by (nonlinear_arith)
        requires
            gm_b1()[8] == 2,
            gm_b2()[8] == 4,
            gm_e1b3e2()[133] == 1,
            gm_e1b3e2()[134] == 60,
    ;
    assert(table_ok(9, 5));
}

#[verifier::spinoff_prover]
proof fn lemma_tables_v10()
    ensures
        table_ok(10, 1),
        table_ok(10, 2),
        table_ok(10, 3),
        table_ok(10, 4),
        table_ok(10, 5),
{
    assert(gm_n1()[9] == 126 && gm_b1()[9] == 7 && gm_b2()[9] == 0);
    assert((gm_b1()[9] as int) * (gm_n1()[9] as int) == 882) by (nonlinear_arith)
        requires
            gm_b1()[9] == 7,
            gm_n1()[9] == 126,
    ;
    assert((gm_b2()[9] as int) * ((gm_n1()[9] as int) - 1) == 0) by (nonlinear_arith)
        requires
            gm_b2()[9] == 0,
            gm_n1()[9] == 126,
    ;
    assert(gm_e1b3e2()[135] == 13 && gm_e1b3e2()[136] == 4 && gm_e1b3e2()[137] == 12);
    assert((gm_e1b3e2()[136] as int) * (gm_e1b3e2()[135] as int) == 52) by (nonlinear_arith)
        requires
            gm_e1b3e2()[135] == 13,
            gm_e1b3e2()[136] == 4,
    ;
    assert(((gm_b1()[9] as int) + (gm_b2()[9] as int) - (gm_e1b3e2()[136] as int)) * (gm_e1b3e2()[137] as int) == 36) by (nonlinear_arith)
        requires
            gm_b1()[9] == 7,
            gm_b2()[9] == 0,
            gm_e1b3e2()[136] == 4,
            gm_e1b3e2()[137] == 12,
    ;
    assert(table_ok(10, 1));
    assert(gm_e1b3e2()[138] == 26 && gm_e1b3e2()[139] == 1 && gm_e1b3e2()[140] == 25);
    assert((gm_e1b3e2()[139] as int) * (gm_e1b3e2()[138] as int) == 26) by (nonlinear_arith)
        requires
            gm_e1b3e2()[138] == 26,
            gm_e1b3e2()[139] == 1,
    ;
    assert(((gm_b1()[9] as int) + (gm_b2()[9] as int) - (gm_e1b3e2()[139] as int)) * (gm_e1b3e2()[140] as int) == 150) by (nonlinear_arith)
        requires
            gm_b1()[9] == 7,
            gm_b2()[9] == 0,
            gm_e1b3e2()[139] == 1,
            gm_e1b3e2()[140] == 25,
    ;
    assert(table_ok(10, 2));
    assert(gm_e1b3e2()[141] == 38 && gm_e1b3e2()[142] == 5 && gm_e1b3e2()[143] == 37);
    assert((gm_e1b3e2()[142] as int) * (gm_e1b3e2()[141] as int) == 190) by (nonlinear_arith)
        requires
            gm_e1b3e2()[141] == 38,
            gm_e1b3e2()[142] == 5,
    ;
    assert(((gm_b1()[9] as int) + (gm_b2()[9] as int) - (gm_e1b3e2()[142] as int)) * (gm_e1b3e2()[143] as int) == 74) by (nonlinear_arith)
        requires
            gm_b1()[9] == 7,
            gm_b2()[9] == 0,
            gm_e1b3e2()[142] == 5,
            gm_e1b3e2()[143] == 37,
    ;
    assert(table_ok(10, 3));
    assert(gm_e1b3e2()[144] == 51 && gm_e1b3e2()[145] == 2 && gm_e1b3e2()[146] == 50);
    assert((gm_e1b3e2()[145] as int) * (gm_e1b3e2()[144] as int) == 102) by (nonlinear_arith)
        requires
            gm_e1b3e2()[144] == 51,
            gm_e1b3e2()[145] == 2,
    ;
    assert(((gm_b1()[9] as int) + (gm_b2()[9] as int) - (gm_e1b3e2()[145] as int)) * (gm_e1b3e2()[146] as int) == 250) by (nonlinear_arith)
        requires
            gm_b1()[9] == 7,
            gm_b2()[9] == 0,
            gm_e1b3e2()[145] == 2,
            gm_e1b3e2()[146] == 50,
    ;
    assert(table_ok(10, 4));
    assert(gm_e1b3e2()[147] == 63 && gm_e1b3e2()[148] == 7 && gm_e1b3e2()[149] == 0);
    assert((gm_e1b3e2()[148] as int) * (gm_e1b3e2()[147] as int) == 441) by (nonlinear_arith)
        requires
            gm_e1b3e2()[147] == 63,
            gm_e1b3e2()[148] == 7,
    ;
    assert(((gm_b1()[9] as int) + (gm_b2()[9] as int) - (gm_e1b3e2()[148] as int)) * (gm_e1b3e2()[149] as int) == 0) by (nonlinear_arith)
        requires
            gm_b1()[9] == 7,
            gm_b2()[9] == 0,
            gm_e1b3e2()[148] == 7,
            gm_e1b3e2()[149] == 0,
    ;
    assert(table_ok(10, 5));
}

#[verifier::spinoff_prover]
proof fn lemma_tables_v11()
    ensures
        table_ok(11, 1),
        table_ok(11, 2),
        table_ok(11, 3),
        table_ok(11, 4),
        table_ok(11, 5),
{
    assert(gm_n1()[10] == 118 && gm_b1()[10] == 5 && gm_b2()[10] == 4);
    assert((gm_b1()[10] as int) * (gm_n1()[10] as int) == 590) by (nonlinear_arith)
        requires
            gm_b1()[10] == 5,
            gm_n1()[10] == 118,
    ;
    assert((gm_b2()[10] as int) * ((gm_n1()[10] as int) - 1) == 468) by (nonlinear_arith)
        requires
            gm_b2()[10] == 4,
            gm_n1()[10] == 118,
    ;
    assert(gm_e1b3e2()[150] == 12 && gm_e1b3e2()[151] == 6 && gm_e1b3e2()[152] == 11);
    assert((gm_e1b3e2()[151] as int) * (gm_e1b3e2()[150] as int) == 72) by (nonlinear_arith)
        requires
            gm_e1b3e2()[150] == 12,
            gm_e1b3e2()[151] == 6,
    ;
    assert(((gm_b1()[10] as int) + (gm_b2()[10] as int) - (gm_e1b3e2()[151] as int)) * (gm_e1b3e2()[152] as int) == 33) by (nonlinear_arith)
        requires
            gm_b1()[10] == 5,
            gm_b2()[10] == 4,
            gm_e1b3e2()[151] == 6,
            gm_e1b3e2()[152] == 11,
    ;
    assert(table_ok(11, 1));
    assert(gm_e1b3e2()[153] == 24 && gm_e1b3e2()[154] == 4 && gm_e1b3e2()[155] == 23);
    assert((gm_e1b3e2()[154] as int) * (gm_e1b3e2()[153] as int) == 96) by (nonlinear_arith)
        requires
            gm_e1b3e2()[153] == 24,
            gm_e1b3e2()[154] == 4,
    ;
    assert(((gm_b1()[10] as int) + (gm_b2()[10] as int) - (gm_e1b3e2()[154] as int)) * (gm_e1b3e2()[155] as int) == 115) by (nonlinear_arith)
        requires
            gm_b1()[10] == 5,
            gm_b2()[10] == 4,
            gm_e1b3e2()[154] == 4,
            gm_e1b3e2()[155] == 23,
    ;
    assert(table_ok(11, 2));
    assert(gm_e1b3e2()[156] == 36 && gm_e1b3e2()[157] == 2 && gm_e1b3e2()[158] == 35);
    assert((gm_e1b3e2()[157] as int) * (gm_e1b3e2()[156] as int) == 72) by (nonlinear_arith)
        requires
            gm_e1b3e2()[156] == 36,
            gm_e1b3e2()[157] == 2,
    ;
    assert(((gm_b1()[10] as int) + (gm_b2()[10] as int) - (gm_e1b3e2()[157] as int)) * (gm_e1b3e2()[158] as int) == 245) by (nonlinear_arith)
        requires
            gm_b1()[10] == 5,
            gm_b2()[10] == 4,
            gm_e1b3e2()[157] == 2,
            gm_e1b3e2()[158] == 35,
    ;
    assert(table_ok(11, 3));
    assert(gm_e1b3e2()[159] == 47 && gm_e1b3e2()[160] == 9 && gm_e1b3e2()[161] == 0);
    assert((gm_e1b3e2()[160] as int) * (gm_e1b3e2()[159] as int) == 423) by (nonlinear_arith)
        requires
            gm_e1b3e2()[159] == 47,
            gm_e1b3e2()[160] == 9,
    ;
    assert(((gm_b1()[10] as int) + (gm_b2()[10] as int) - (gm_e1b3e2()[160] as int)) * (gm_e1b3e2()[161] as int) == 0) by (nonlinear_arith)
        requires
            gm_b1()[10] == 5,
            gm_b2()[10] == 4,
            gm_e1b3e2()[160] == 9,
            gm_e1b3e2()[161] == 0,
    ;
    assert(table_ok(11, 4));
    assert(gm_e1b3e2()[162] == 59 && gm_e1b3e2()[163] == 7 && gm_e1b3e2()[164] == 58);
    assert((gm_e1b3e2()[163] as int) * (gm_e1b3e2()[162] as int) == 413) by (nonlinear_arith)
        requires
            gm_e1b3e2()[162] == 59,
            gm_e1b3e2()[163] == 7,
    ;
    assert(((gm_b1()[10] as int) + (gm_b2()[10] as int) - (gm_e1b3e2()[163] as int)) * (gm_e1b3e2()[164] as int) == 116) by (nonlinear_arith)
        requires
            gm_b1()[10] == 5,
            gm_b2()[10] == 4,
            gm_e1b3e2()[163] == 7,
            gm_e1b3e2()[164] == 58,
    ;
    assert(table_ok(11, 5));
}

#[verifier::spinoff_prover]
proof fn lemma_tables_v12()
    ensures
        table_ok(12, 1),
        table_ok(12, 2),
        table_ok(12, 3),
        table_ok(12, 4),
        table_ok(12, 5),
{
    assert(gm_n1()[11] == 125 && gm_b1()[11] == 10 && gm_b2()[11] == 0);
    assert((gm_b1()[11] as int) * (gm_n1()[11] as int) == 1250) by (nonlinear_arith)
        requires
            gm_b1()[11] == 10,
            gm_n1()[11] == 125,
    ;
    assert((gm_b2()[11] as int) * ((gm_n1()[11] as int) - 1) == 0) by (nonlinear_arith)
        requires
            gm_b2()[11] == 0,
            gm_n1()[11] == 125,
    ;
    assert(gm_e1b3e2()[165] == 13 && gm_e1b3e2()[166] == 5 && gm_e1b3e2()[167] == 12);
    assert((gm_e1b3e2()[166] as int) * (gm_e1b3e2()[165] as int) == 65) by (nonlinear_arith)
        requires
            gm_e1b3e2()[165] == 13,
            gm_e1b3e2()[166] == 5,
    ;
    assert(((gm_b1()[11] as int) + (gm_b2()[11] as int) - (gm_e1b3e2()[166] as int)) * (gm_e1b3e2()[167] as int) == 60) by (nonlinear_arith)
        requires
            gm_b1()[11] == 10,
            gm_b2()[11] == 0,
            gm_e1b3e2()[166] == 5,
            gm_e1b3e2()[167] == 12,
    ;
    assert(table_ok(12, 1));
    assert(gm_e1b3e2()[168] == 25 && gm_e1b3e2()[169] == 10 && gm_e1b3e2()[170] == 0);
    assert((gm_e1b3e2()[169] as int) * (gm_e1b3e2()[168] as int) == 250) by (nonlinear_arith)
        requires
            gm_e1b3e2()[168] == 25,
            gm_e1b3e2()[169] == 10,
    ;
    assert(((gm_b1()[11] as int) + (gm_b2()[11] as int) - (gm_e1b3e2()[169] as int)) * (gm_e1b3e2()[170] as int) == 0) by (nonlinear_arith)
        requires
            gm_b1()[11] == 10,
            gm_b2()[11] == 0,
            gm_e1b3e2()[169] == 10,
            gm_e1b3e2()[170] == 0,
    ;
    assert(table_ok(12, 2));
    assert(gm_e1b3e2()[171] == 38 && gm_e1b3e2()[172] == 5 && gm_e1b3e2()[173] == 37);
    assert((gm_e1b3e2()[172] as int) * (gm_e1b3e2()[171] as int) == 190) by (nonlinear_arith)
        requires
            gm_e1b3e2()[171] == 38,
            gm_e1b3e2()[172] == 5,
    ;
    assert(((gm_b1()[11] as int) + (gm_b2()[11] as int) - (gm_e1b3e2()[172] as int)) * (gm_e1b3e2()[173] as int) == 185) by (nonlinear_arith)
        requires
            gm_b1()[11] == 10,
            gm_b2()[11] == 0,
            gm_e1b3e2()[172] == 5,
            gm_e1b3e2()[173] == 37,
    ;
    assert(table_ok(12, 3));
    assert(gm_e1b3e2()[174] == 50 && gm_e1b3e2()[175] == 10 && gm_e1b3e2()[176] == 0);
    assert((gm_e1b3e2()[175] as int) * (gm_e1b3e2()[174] as int) == 500) by (nonlinear_arith)
        requires
            gm_e1b3e2()[174] == 50,
            gm_e1b3e2()[175] == 10,
    ;
    assert(((gm_b1()[11] as int) + (gm_b2()[11] as int) - (gm_e1b3e2()[175] as int)) * (gm_e1b3e2()[176] as int) == 0) by (nonlinear_arith)
        requires
            gm_b1()[11] == 10,
            gm_b2()[11] == 0,
            gm_e1b3e2()[175] == 10,
            gm_e1b3e2()[176] == 0,
    ;
    assert(table_ok(12, 4));
    assert(gm_e1b3e2()[177] == 63 && gm_e1b3e2()[178] == 5 && gm_e1b3e2()[179] == 62);
    assert((gm_e1b3e2()[178] as int) * (gm_e1b3e2()[177] as int) == 315) by (nonlinear_arith)
        requires
            gm_e1b3e2()[177] == 63,
            gm_e1b3e2()[178] == 5,
    ;
    assert(((gm_b1()[11] as int) + (gm_b2()[11] as int) - (gm_e1b3e2()[178] as int)) * (gm_e1b3e2()[179] as int) == 310) by (nonlinear_arith)
        requires
            gm_b1()[11] == 10,
            gm_b2()[11] == 0,
            gm_e1b3e2()[178] == 5,
            gm_e1b3e2()[179] == 62,
    ;
    assert(table_ok(12, 5));
}

#[verifier::spinoff_prover]
proof fn lemma_tables_v13()
    ensures
        table_ok(13, 1),
        table_ok(13, 2),
        table_ok(13, 3),
        table_ok(13, 4),
        table_ok(13, 5),
{
    assert(gm_n1()[12] == 122 && gm_b1()[12] == 6 && gm_b2()[12] == 6);
    assert((gm_b1()[12] as int) * (gm_n1()[12] as int) == 732) by (nonlinear_arith)
        requires
            gm_b1()[12] == 6,
            gm_n1()[12] == 122,
    ;
    assert((gm_b2()[12] as int) * ((gm_n1()[12] as int) - 1) == 726) by (nonlinear_arith)
        requires
            gm_b2()[12] == 6,
            gm_n1()[12] == 122,
    ;
    assert(gm_e1b3e2()[180] == 13 && gm_e1b3e2()[181] == 1 && gm_e1b3e2()[182] == 12);
    assert((gm_e1b3e2()[181] as int) * (gm_e1b3e2()[180] as int) == 13) by (nonlinear_arith)
        requires
            gm_e1b3e2()[180] == 13,
            gm_e1b3e2()[181] == 1,
    ;
    assert(((gm_b1()[12] as int) + (gm_b2()[12] as int) - (gm_e1b3e2()[181] as int)) * (gm_e1b3e2()[182] as int) == 132) by (nonlinear_arith)
        requires
            gm_b1()[12] == 6,
            gm_b2()[12] == 6,
            gm_e1b3e2()[181] == 1,
            gm_e1b3e2()[182] == 12,
    ;
    assert(table_ok(13, 1));
    assert(gm_e1b3e2()[183] == 25 && gm_e1b3e2()[184] == 3 && gm_e1b3e2()[185] == 24);
    assert((gm_e1b3e2()[184] as int) * (gm_e1b3e2()[183] as int) == 75) by (nonlinear_arith)
        requires
            gm_e1b3e2()[183] == 25,
            gm_e1b3e2()[184] == 3,
    ;
    assert(((gm_b1()[12] as int) + (gm_b2()[12] as int) - (gm_e1b3e2()[184] as int)) * (gm_e1b3e2()[185] as int) == 216) by (nonlinear_arith)
        requires
            gm_b1()[12] == 6,
            gm_b2()[12] == 6,
            gm_e1b3e2()[184] == 3,
            gm_e1b3e2()[185] == 24,
    ;
    assert(table_ok(13, 2));
    assert(gm_e1b3e2()[186] == 37 && gm_e1b3e2()[187] == 5 && gm_e1b3e2()[188] == 36);
    assert((gm_e1b3e2()[187] as int) * (gm_e1b3e2()[186] as int) == 185) by (nonlinear_arith)
        requires
            gm_e1b3e2()[186] == 37,
            gm_e1b3e2()[187] == 5,
    ;
    assert(((gm_b1()[12] as int) + (gm_b2()[12] as int) - (gm_e1b3e2()[187] as int)) * (gm_e1b3e2()[188] as int) == 252) by (nonlinear_arith)
        requires
            gm_b1()[12] == 6,
            gm_b2()[12] == 6,
            gm_e1b3e2()[187] == 5,
            gm_e1b3e2()[188] == 36,
    ;
    assert(table_ok(13, 3));
    assert(gm_e1b3e2()[189] == 49 && gm_e1b3e2()[190] == 7 && gm_e1b3e2()[191] == 48);
    assert((gm_e1b3e2()[190] as int) * (gm_e1b3e2()[189] as int) == 343) by (nonlinear_arith)
        requires
            gm_e1b3e2()[189] == 49,
            gm_e1b3e2()[190] == 7,
    ;
    assert(((gm_b1()[12] as int) + (gm_b2()[12] as int) - (gm_e1b3e2()[190] as int)) * (gm_e1b3e2()[191] as int) == 240) by (nonlinear_arith)
        requires
            gm_b1()[12] == 6,
            gm_b2()[12] == 6,
            gm_e1b3e2()[190] == 7,
            gm_e1b3e2()[191] == 48,
    ;
    assert(table_ok(13, 4));
    assert(gm_e1b3e2()[192] == 61 && gm_e1b3e2()[193] == 9 && gm_e1b3e2()[194] == 60);
    assert((gm_e1b3e2()[193] as int) * (gm_e1b3e2()[192] as int) == 549) by (nonlinear_arith)
        requires
            gm_e1b3e2()[192] == 61,
            gm_e1b3e2()[193] == 9,
    ;
    assert(((gm_b1()[12] as int) + (gm_b2()[12] as int) - (gm_e1b3e2()[193] as int)) * (gm_e1b3e2()[194] as int) == 180) by (nonlinear_arith)
        requires
            gm_b1()[12] == 6,
            gm_b2()[12] == 6,
            gm_e1b3e2()[193] == 9,
            gm_e1b3e2()[194] == 60,
    ;
    assert(table_ok(13, 5));
}


/// Every block holds at most 255 codewords.
pub proof fn lemma_block_total_small(v: int, e: int, k: int)
    requires
        table_ok(v, e),
        0 <= k < blocks_spec(v, e).len(),
    ensures
        blocks_spec(v, e)[k].total <= 255,
{
}
} // verus!
