//! Grid Matrix encoding: payload → codeword stream → module grid.
use vstd::prelude::*;
use super::bitstream::{bval, pw2, lemma_bval_bound};
use super::gf::{self, gm_check, seven_bit};
use super::tables::{Block, EcLevel, Version, blocks, blocks_spec, data_cws_spec, level_number};
use super::tables::{gm_n1, gm_b1, gm_b2, gm_e1b3e2, table_ok, lemma_tables_consistent};
use super::tables::smallest_version_for;
use super::data::{GmMode, canonical_segments, encode_segments, recommended_ec, canonical_ok, seg_view};
use super::data::{stream_spec, enc_fail, lemma_canonical_encodable};
use super::layout::{render, gm_module, QUIET_ZONE};
use super::GridMatrixMeta;
use crate::error::Error;
use vstd::string::StringSliceAdditionalSpecFns;
use crate::output::Encoding;
use crate::segment::{Mode, Segment, copy_bytes};
use crate::symbol::{Symbol, SymbolMeta};
use crate::symbology::Symbology;

verus! {

/// Data codeword `i` of a bitstream: its bits `7i … 7i+6`, zero past the end.
pub open spec fn window7(bits: Seq<bool>, i: int) -> Seq<bool> {
    Seq::new(7, |j: int| 7 * i + j < bits.len() && bits[7 * i + j])
}

/// How many 7-bit codewords `n` bits fill.
pub open spec fn ceil7(n: int) -> int {
    (n + 6) / 7
}

/// The data codewords of a bitstream padded to `total`: the bitstream's codewords, a
/// zero, then `0x7E` on odd indices and zero on even ones.
pub open spec fn padded_data(bits: Seq<bool>, total: int) -> Seq<u8> {
    Seq::new(
        total as nat,
        |i: int|
            if i < ceil7(bits.len() as int) {
                bval(window7(bits, i)) as u8
            } else if i > ceil7(bits.len() as int) && i % 2 == 1 {
                0x7Eu8
            } else {
                0u8
            },
    )
}

/// Where block `i`'s data codewords start: the data lengths of the blocks before it.
pub open spec fn data_off(bl: Seq<Block>, i: int) -> int
    decreases i,
{
    if i <= 0 {
        0
    } else {
        data_off(bl, i - 1) + bl[i - 1].total - bl[i - 1].ec
    }
}

/// Block `i`: its data codewords followed by their Reed–Solomon check symbols.
pub open spec fn block_cws(bits: Seq<bool>, v: int, e: int, i: int) -> Seq<u8> {
    let bl = blocks_spec(v, e);
    let d = padded_data(bits, data_cws_spec(v, e));
    let bd = d.subrange(data_off(bl, i), data_off(bl, i) + bl[i].total - bl[i].ec);
    bd + gm_check(bd, bl[i].ec as nat)
}

/// The interleaved codeword stream: codeword `j` of block `i` sits at `nb·j + i`.
pub open spec fn gm_cws(bits: Seq<bool>, v: int, e: int) -> Seq<u8> {
    let nb = blocks_spec(v, e).len() as int;
    Seq::new(
        (2 * (2 * v + 1) * (2 * v + 1)) as nat,
        |p: int| block_cws(bits, v, e, p % nb)[p / nb],
    )
}

/// Sums over the first `i` blocks, in closed form.
proof fn lemma_data_off(v: int, e: int, i: int)
    requires
        1 <= v <= 13,
        1 <= e <= 5,
        table_ok(v, e),
        0 <= i <= blocks_spec(v, e).len(),
    ensures
        ({
            let idx = v - 1;
            let n1 = gm_n1()[idx] as int;
            let b1 = gm_b1()[idx] as int;
            let base = idx * 15 + (e - 1) * 3;
            let e1 = gm_e1b3e2()[base] as int;
            let b3 = gm_e1b3e2()[base + 1] as int;
            let e2 = gm_e1b3e2()[base + 2] as int;
            let tot = if i <= b1 { i * n1 } else { b1 * n1 + (i - b1) * (n1 - 1) };
            let ecs = if i <= b3 { i * e1 } else { b3 * e1 + (i - b3) * e2 };
            data_off(blocks_spec(v, e), i) == tot - ecs
        }),
    decreases i,
{
    if i == 0 {
        let idx = v - 1;
        let n1 = gm_n1()[idx] as int;
        let base = idx * 15 + (e - 1) * 3;
        let e1 = gm_e1b3e2()[base] as int;
        assert(i * n1 == 0 && i * e1 == 0) by (nonlinear_arith)
            requires
                i == 0,
        ;
    } else {
        lemma_data_off(v, e, i - 1);
        let idx = v - 1;
        let n1 = gm_n1()[idx] as int;
        let b1 = gm_b1()[idx] as int;
        let base = idx * 15 + (e - 1) * 3;
        let e1 = gm_e1b3e2()[base] as int;
        let b3 = gm_e1b3e2()[base + 1] as int;
        let e2 = gm_e1b3e2()[base + 2] as int;
        let k = i - 1;
        assert(k * n1 + n1 == i * n1) by (nonlinear_arith)
            requires
                k == i - 1,
        ;
        assert((k - b1) * (n1 - 1) + (n1 - 1) == (i - b1) * (n1 - 1)) by (nonlinear_arith)
            requires
                k == i - 1,
        ;
        assert(k * e1 + e1 == i * e1) by (nonlinear_arith)
            requires
                k == i - 1,
        ;
        assert((k - b3) * e2 + e2 == (i - b3) * e2) by (nonlinear_arith)
            requires
                k == i - 1,
        ;
        let bl = blocks_spec(v, e);
        assert(bl[k].total == (if k < b1 { n1 } else { n1 - 1 }));
        assert(bl[k].ec == (if k < b3 { e1 } else { e2 }));
        assert(data_off(bl, i) == data_off(bl, k) + bl[k].total - bl[k].ec);
        if k == b1 {
            assert((i - b1) * (n1 - 1) == n1 - 1) by (nonlinear_arith)
                requires
                    i - b1 == 1,
            ;
            assert(k * n1 == b1 * n1);
        }
        if k == b3 {
            assert((i - b3) * e2 == e2) by (nonlinear_arith)
                requires
                    i - b3 == 1,
            ;
            assert(k * e1 == b3 * e1);
        }
        let tot_k = if k <= b1 { k * n1 } else { b1 * n1 + (k - b1) * (n1 - 1) };
        let ecs_k = if k <= b3 { k * e1 } else { b3 * e1 + (k - b3) * e2 };
        let tot_i = if i <= b1 { i * n1 } else { b1 * n1 + (i - b1) * (n1 - 1) };
        let ecs_i = if i <= b3 { i * e1 } else { b3 * e1 + (i - b3) * e2 };
        assert(data_off(bl, k) == tot_k - ecs_k);
        assert(tot_i == tot_k + bl[k].total);
        assert(ecs_i == ecs_k + bl[k].ec);
        assert(data_off(bl, i) == tot_i - ecs_i);
    }
}

/// The blocks' data parts fill the data capacity, and data offsets only grow.
pub proof fn lemma_offsets(v: int, e: int)
    requires
        1 <= v <= 13,
        1 <= e <= 5,
        data_cws_spec(v, e) > 0,
    ensures
        table_ok(v, e),
        data_off(blocks_spec(v, e), blocks_spec(v, e).len() as int) == data_cws_spec(v, e),
        forall|i: int|
            0 <= i < blocks_spec(v, e).len() ==> 0 <= #[trigger] data_off(blocks_spec(v, e), i)
                && data_off(blocks_spec(v, e), i) + blocks_spec(v, e)[i].total - blocks_spec(
                v,
                e,
            )[i].ec <= data_cws_spec(v, e),
{
    lemma_tables_consistent(v, e);
    let bl = blocks_spec(v, e);
    let nb = bl.len() as int;
    lemma_data_off(v, e, nb);
    lemma_blocks_fit(v, e);
    let idx = v - 1;
    let n1 = gm_n1()[idx] as int;
    let b1 = gm_b1()[idx] as int;
    let b2 = gm_b2()[idx] as int;
    let base = idx * 15 + (e - 1) * 3;
    let e1 = gm_e1b3e2()[base] as int;
    let b3 = gm_e1b3e2()[base + 1] as int;
    let e2 = gm_e1b3e2()[base + 2] as int;
    assert(nb == b1 + b2);
    let tot = if nb <= b1 { nb * n1 } else { b1 * n1 + (nb - b1) * (n1 - 1) };
    let ecs = if nb <= b3 { nb * e1 } else { b3 * e1 + (nb - b3) * e2 };
    assert(tot == b1 * n1 + b2 * (n1 - 1)) by (nonlinear_arith)
        requires
            nb == b1 + b2,
            b2 >= 0,
            tot == if nb <= b1 { nb * n1 } else { b1 * n1 + (nb - b1) * (n1 - 1) },
    ;
    assert(ecs == b3 * e1 + (nb - b3) * e2) by (nonlinear_arith)
        requires
            b3 <= nb,
            ecs == if nb <= b3 { nb * e1 } else { b3 * e1 + (nb - b3) * e2 },
    ;
    assert(data_off(bl, nb) == data_cws_spec(v, e));
    assert forall|i: int| 0 <= i < nb implies 0 <= #[trigger] data_off(bl, i) && data_off(bl, i)
        + bl[i].total - bl[i].ec <= data_cws_spec(v, e) by {
        lemma_offsets_mono(bl, i + 1, nb);
        lemma_offsets_mono(bl, 0, i);
    }
}

/// With every block's EC part inside it, offsets grow with the block index.
pub proof fn lemma_offsets_mono(bl: Seq<Block>, i: int, k: int)
    requires
        0 <= i <= k <= bl.len(),
        forall|j: int| 0 <= j < bl.len() ==> #[trigger] bl[j].ec <= bl[j].total,
    ensures
        data_off(bl, i) <= data_off(bl, k),
    decreases k - i,
{
    if i < k {
        lemma_offsets_mono(bl, i, k - 1);
    }
}


/// In a consistent table every block holds at least one data and one EC codeword.
pub proof fn lemma_blocks_fit(v: int, e: int)
    requires
        1 <= v <= 13,
        1 <= e <= 5,
        table_ok(v, e),
    ensures
        forall|j: int|
            0 <= j < blocks_spec(v, e).len() ==> 1 <= (#[trigger] blocks_spec(v, e)[j]).ec
                < blocks_spec(v, e)[j].total,
{
    let bl = blocks_spec(v, e);
    assert forall|j: int| 0 <= j < bl.len() implies 1 <= (#[trigger] bl[j]).ec < bl[j].total by {}
}

/// The stream position of codeword `j` of block `k` among `nb` blocks.
pub open spec fn slot(nb: int, j: int, k: int) -> int {
    nb * j + k
}

/// Slot `nb·j + k` belongs to block `k`, codeword `j`.
proof fn lemma_slot(nb: int, j: int, k: int)
    requires
        0 <= k < nb,
        0 <= j,
    ensures
        (nb * j + k) % nb == k,
        (nb * j + k) / nb == j,
{
    assert(nb * j + k == j * nb + k) by (nonlinear_arith);
    vstd::arithmetic::div_mod::lemma_fundamental_div_mod_converse(nb * j + k, nb, j, k);
}

/// The blocks' slots lie inside the codeword stream, and every slot of the stream
/// belongs to a codeword of its block.
pub proof fn lemma_slots(v: int, e: int)
    requires
        1 <= v <= 13,
        1 <= e <= 5,
        table_ok(v, e),
    ensures
        forall|k: int, j: int|
            0 <= k < blocks_spec(v, e).len() && 0 <= j < blocks_spec(v, e)[k].total ==> #[trigger] slot(
                blocks_spec(v, e).len() as int,
                j,
                k,
            ) < 2 * (2 * v + 1) * (2 * v + 1),
        forall|p: int|
            0 <= p < 2 * (2 * v + 1) * (2 * v + 1) ==> p / (blocks_spec(v, e).len() as int)
                < (#[trigger] blocks_spec(v, e)[p % (blocks_spec(v, e).len() as int)]).total,
{
    let bl = blocks_spec(v, e);
    let nb = bl.len() as int;
    let idx = v - 1;
    let n1 = gm_n1()[idx] as int;
    let b1 = gm_b1()[idx] as int;
    let b2 = gm_b2()[idx] as int;
    let total = 2 * (2 * v + 1) * (2 * v + 1);
    assert(nb == b1 + b2);
    assert(total == nb * (n1 - 1) + b1) by (nonlinear_arith)
        requires
            nb == b1 + b2,
            b1 * n1 + b2 * (n1 - 1) == total,
    ;
    assert forall|k: int, j: int| 0 <= k < nb && 0 <= j < bl[k].total implies #[trigger] slot(
        nb,
        j,
        k,
    ) < total by {
        if k < b1 {
            assert(nb * j + k < total) by (nonlinear_arith)
                requires
                    0 <= j <= n1 - 1,
                    0 <= k < b1,
                    nb >= 1,
                    total == nb * (n1 - 1) + b1,
            ;
        } else {
            assert(nb * j + k < total) by (nonlinear_arith)
                requires
                    0 <= j <= n1 - 2,
                    0 <= k < nb,
                    b1 >= 1,
                    total == nb * (n1 - 1) + b1,
            ;
        }
    }
    assert forall|p: int| 0 <= p < total implies p / nb < (#[trigger] bl[p % nb]).total by {
        let q = p / nb;
        let r = p % nb;
        vstd::arithmetic::div_mod::lemma_fundamental_div_mod(p, nb);
        assert(0 <= r < nb);
        assert(q >= 0) by (nonlinear_arith)
            requires
                p == nb * q + r,
                0 <= p,
                r < nb,
                nb >= 1,
        ;
        if r < b1 {
            assert(q <= n1 - 1) by (nonlinear_arith)
                requires
                    p == nb * q + r,
                    p < nb * (n1 - 1) + b1,
                    0 <= r,
                    b1 <= nb,
                    nb >= 1,
            ;
        } else {
            assert(q <= n1 - 2) by (nonlinear_arith)
                requires
                    p == nb * q + r,
                    p < nb * (n1 - 1) + b1,
                    b1 <= r,
                    nb >= 1,
            ;
        }
    }
}

fn pad_data(bits: &[bool], total_data: usize) -> (data: Vec<u8>)
    requires
        total_data <= 0xffff,
    ensures
        data@ == padded_data(bits@, total_data as int),
        seven_bit(data@),
{
    let n = bits.len();
    let ndc: usize = n / 7 + (if n % 7 != 0 { 1usize } else { 0usize });
    assert(ndc == ceil7(n as int));
    let ghost target = padded_data(bits@, total_data as int);
    let mut data: Vec<u8> = Vec::new();
    let mut i: usize = 0;
    while i < total_data
        invariant
            n == bits@.len(),
            ndc == ceil7(n as int),
            total_data <= 0xffff,
            target == padded_data(bits@, total_data as int),
            i <= total_data,
            data@.len() == i,
            forall|k: int| 0 <= k < i ==> #[trigger] data@[k] == target[k],
            seven_bit(data@),
        decreases total_data - i,
    {
        let cw: u8 = if i < ndc {
            let ghost w = window7(bits@, i as int);
            let mut c: u8 = 0;
            let mut j: usize = 0;
            while j < 7
                invariant
                    n == bits@.len(),
                    i < 0x10000,
                    w == window7(bits@, i as int),
                    j <= 7,
                    c == bval(w.take(j as int)),
                    c < pw2(j as nat),
                    pw2(j as nat) <= 128,
                decreases 7 - j,
            {
                let b = 7 * i + j < n && bits[7 * i + j];
                proof {
                    assert(w.take(j + 1).drop_last() =~= w.take(j as int));
                    assert(w[j as int] == b);
                    assert(pw2((j + 1) as nat) == 2 * pw2(j as nat));
                    crate::codes::gridmatrix::bitstream::lemma_pw2_mono((j + 1) as nat, 7);
                    assert(pw2(7) == 128) by {
                        reveal_with_fuel(pw2, 8);
                    }
                }
                c = c * 2 + (if b { 1u8 } else { 0u8 });
                j = j + 1;
            }
            proof {
                assert(w.take(7) =~= w);
                assert(pw2(7) == 128) by {
                    reveal_with_fuel(pw2, 8);
                }
            }
            c
        } else if i > ndc && i % 2 == 1 {
            0x7E
        } else {
            0
        };
        data.push(cw);
        i = i + 1;
    }
    proof {
        assert(data@ =~= target);
    }
    data
}

fn copy_range(data: &Vec<u8>, start: usize, end: usize) -> (v: Vec<u8>)
    requires
        start <= end <= data@.len(),
    ensures
        v@ == data@.subrange(start as int, end as int),
{
    let mut v: Vec<u8> = Vec::new();
    let mut i: usize = start;
    while i < end
        invariant
            start <= i <= end,
            end <= data@.len(),
            v@ == data@.subrange(start as int, i as int),
        decreases end - i,
    {
        v.push(data[i]);
        proof {
            assert(v@ =~= data@.subrange(start as int, i + 1));
        }
        i = i + 1;
    }
    v
}

/// Convert the data bitstream to 7-bit codewords, pad them to the capacity of
/// `version` at `ec`, and interleave them with each block's Reed–Solomon check
/// symbols: the full codeword stream, ready for placement.
pub fn add_ecc(bits: &[bool], version: Version, ec: EcLevel) -> (cws: Vec<u8>)
    requires
        data_cws_spec(version.num(), level_number(ec)) > 0,
    ensures
        cws@ == gm_cws(bits@, version.num(), level_number(ec)),
        seven_bit(cws@),
{
    let vn = version.number();
    let ghost v = version.num();
    let ghost e = level_number(ec);
    proof {
        lemma_offsets(v, e);
        lemma_blocks_fit(v, e);
        lemma_slots(v, e);
    }
    let total_data = version.data_codewords(ec);
    let data = pad_data(bits, total_data);
    let bl = blocks(version, ec);
    let nb = bl.len();
    let total_cw = version.total_codewords();
    let ghost bls = bl@;
    let mut cws: Vec<u8> = Vec::new();
    let mut p: usize = 0;
    while p < total_cw
        invariant
            p <= total_cw,
            cws@.len() == p,
            seven_bit(cws@),
        decreases total_cw - p,
    {
        cws.push(0);
        p = p + 1;
    }
    let mut wp: usize = 0;
    let mut i: usize = 0;
    while i < nb
        invariant
            bls == bl@,
            bls == blocks_spec(v, e),
            nb == bls.len(),
            total_cw == 2 * (2 * v + 1) * (2 * v + 1),
            data@ == padded_data(bits@, data_cws_spec(v, e)),
            seven_bit(data@),
            data@.len() == data_cws_spec(v, e),
            1 <= v <= 13,
            1 <= e <= 5,
            table_ok(v, e),
            forall|k: int|
                0 <= k < bls.len() ==> 0 <= #[trigger] data_off(bls, k) && data_off(bls, k)
                    + bls[k].total - bls[k].ec <= data_cws_spec(v, e),
            forall|k: int| 0 <= k < bls.len() ==> 1 <= (#[trigger] bls[k]).ec < bls[k].total,
            forall|k: int, j: int|
                0 <= k < bls.len() && 0 <= j < bls[k].total ==> #[trigger] slot(nb as int, j, k)
                    < total_cw,
            i <= nb,
            wp == data_off(bls, i as int),
            cws@.len() == total_cw,
            seven_bit(cws@),
            forall|k: int, j: int|
                0 <= k < i && 0 <= j < bls[k].total ==> cws@[nb * j + k] == #[trigger] block_cws(bits@, v, e, k,)[j],
        decreases nb - i,
    {
        let blk = bl[i];
        let ds = blk.total - blk.ec;
        let block_data = copy_range(&data, wp, wp + ds);
        proof {
            assert(seven_bit(block_data@)) by {
                assert forall|t: int| 0 <= t < block_data@.len() implies #[trigger] block_data@[t]
                    < 128 by {
                    assert(block_data@[t] == data@[wp + t]);
                }
            }
            assert(blk.ec <= 0xffff);
        }
        let ecc = gf::encode(&block_data, blk.ec);
        let ghost bc = block_cws(bits@, v, e, i as int);
        proof {
            assert(bc == block_data@ + ecc@);
        }
        let mut j: usize = 0;
        while j < blk.total
            invariant
                bls == blocks_spec(v, e),
                nb == bls.len(),
                i < nb,
                blk == bls[i as int],
                ds == blk.total - blk.ec,
                bc == block_data@ + ecc@,
                block_data@.len() == ds,
                ecc@.len() == blk.ec,
                seven_bit(block_data@),
                seven_bit(ecc@),
                forall|k: int, jj: int|
                    0 <= k < bls.len() && 0 <= jj < bls[k].total ==> #[trigger] slot(
                        nb as int,
                        jj,
                        k,
                    ) < total_cw,
                cws@.len() == total_cw,
                seven_bit(cws@),
                j <= blk.total,
                bc == block_cws(bits@, v, e, i as int),
                forall|k: int, jj: int|
                    0 <= k < i && 0 <= jj < bls[k].total ==> cws@[nb * jj + k] == #[trigger] block_cws(bits@, v, e, k)[jj],
                forall|jj: int| 0 <= jj < j ==> cws@[nb * jj + i] == #[trigger] bc[jj],
            decreases blk.total - j,
        {
            assert(nb * j + i < total_cw) by {
                assert(bls[i as int].total == blk.total);
                assert(slot(nb as int, j as int, i as int) < total_cw);
            }
            let val = if j < ds {
                block_data[j]
            } else {
                ecc[j - ds]
            };
            let ghost before = cws@;
            cws.set(nb * j + i, val);
            proof {
                assert(val == bc[j as int]);
                assert forall|k: int, jj: int|
                    0 <= k < i && 0 <= jj < bls[k].total implies cws@[nb * jj + k] == #[trigger] block_cws(bits@, v, e, k)[jj] by {
                    lemma_slot(nb as int, jj, k);
                    lemma_slot(nb as int, j as int, i as int);
                    assert(nb * jj + k != nb * j + i);
                    assert(slot(nb as int, jj, k) < total_cw);
                    assert(cws@[nb * jj + k] == before[nb * jj + k]);
                }
                assert forall|jj: int| 0 <= jj < j + 1 implies cws@[nb * jj + i] == #[trigger] bc[jj] by {
                    if jj < j {
                        lemma_slot(nb as int, jj, i as int);
                        lemma_slot(nb as int, j as int, i as int);
                        assert(slot(nb as int, jj, i as int) < total_cw);
                        assert(cws@[nb * jj + i] == before[nb * jj + i]);
                    }
                }
            }
            j = j + 1;
        }
        proof {
            assert forall|k: int, jj: int|
                0 <= k < i + 1 && 0 <= jj < bls[k].total implies cws@[nb * jj + k] == #[trigger] block_cws(bits@, v, e, k)[jj] by {
                if k == i {
                    assert(bc[jj] == block_cws(bits@, v, e, k)[jj]);
                }
            }
        }
        wp = wp + ds;
        i = i + 1;
    }
    proof {
        let target = gm_cws(bits@, v, e);
        assert forall|q: int| 0 <= q < total_cw implies cws@[q] == target[q] by {
            let k = q % (nb as int);
            let jj = q / (nb as int);
            vstd::arithmetic::div_mod::lemma_fundamental_div_mod(q, nb as int);
            assert(0 <= k < nb);
            assert(jj >= 0) by (nonlinear_arith)
                requires
                    q == nb * jj + k,
                    0 <= q,
                    k < nb,
                    nb >= 1,
            ;
            assert(jj < bls[k].total);
            assert(cws@[nb * jj + k] == block_cws(bits@, v, e, k)[jj]);
        }
        assert(cws@ =~= target);
    }
    cws
}

// ---------------------------------------------------------------------------
// The encoder
// ---------------------------------------------------------------------------

/// The segment mode a Grid Matrix mode is reported as.
pub open spec fn segment_mode(m: GmMode) -> Mode {
    match m {
        GmMode::Numeral => Mode::Numeric,
        GmMode::Upper | GmMode::Lower => Mode::Alphanumeric,
        _ => Mode::Byte,
    }
}

/// `sym` is a Grid Matrix symbol whose segments follow its mode list.
pub open spec fn gm_symbol_ok(sym: Symbol) -> bool {
    &&& sym.symbology == Symbology::GridMatrix
    &&& sym.meta is GridMatrix
    &&& sym.meta->GridMatrix_0.modes@.len() == sym.segments@.len()
    &&& forall|k: int|
        0 <= k < sym.segments@.len() ==> (#[trigger] sym.segments@[k]).mode == segment_mode(
            sym.meta->GridMatrix_0.modes@[k],
        )
}

/// The `(mode, bytes)` segments of a Grid Matrix symbol: its mode list paired with
/// its segments' bytes.
pub open spec fn gm_pairs(sym: Symbol) -> Seq<(GmMode, Seq<u8>)> {
    Seq::new(
        sym.segments@.len(),
        |k: int| (sym.meta->GridMatrix_0.modes@[k], sym.segments@[k].data@),
    )
}

/// Version `v` at level number `e` has room for `n` data codewords.
pub open spec fn fits_at(v: int, e: int, n: int) -> bool {
    data_cws_spec(v, e) > 0 && data_cws_spec(v, e) >= n
}

/// The recommended level number for version `v`.
pub open spec fn rec_level(v: int) -> int {
    if v == 1 {
        5
    } else if v == 2 || v == 3 {
        4
    } else {
        3
    }
}

/// The data codewords the segments' bitstream fills.
pub open spec fn needed(segs: Seq<(GmMode, Seq<u8>)>) -> int {
    ceil7(stream_spec(segs).len() as int)
}

/// What [`GridMatrixEncoder::build`] gives for `data`: the canonical segments in the
/// smallest version that holds them at its recommended level, or a capacity error.
pub open spec fn build_ok(data: Seq<u8>, r: Result<Symbol, Error>) -> bool {
    match r {
        Ok(sym) => {
            let v = sym.meta->GridMatrix_0.version.num();
            let e = level_number(sym.meta->GridMatrix_0.ec_level);
            &&& gm_symbol_ok(sym)
            &&& canonical_ok(data, gm_pairs(sym))
            &&& e == rec_level(v)
            &&& fits_at(v, e, needed(gm_pairs(sym)))
            &&& forall|w: int| 1 <= w < v ==> !fits_at(w, rec_level(w), needed(gm_pairs(sym)))
        },
        Err(err) => err == Error::Capacity && exists|segs: Seq<(GmMode, Seq<u8>)>|
            #[trigger] canonical_ok(data, segs) && forall|w: int|
                1 <= w <= 13 ==> !fits_at(w, rec_level(w), needed(segs)),
    }
}

/// Map a Grid Matrix mode and its bytes to a segment.
pub fn to_segment(mode: GmMode, data: Vec<u8>) -> (s: Segment)
    ensures
        s.mode == segment_mode(mode),
        s.data@ == data@,
{
    match mode {
        GmMode::Numeral => Segment { mode: Mode::Numeric, data },
        GmMode::Upper | GmMode::Lower => Segment { mode: Mode::Alphanumeric, data },
        _ => Segment { mode: Mode::Byte, data },
    }
}

/// Assemble a symbol from segments and the chosen version and level.
fn build_symbol(segs: &Vec<(GmMode, Vec<u8>)>, version: Version, ec: EcLevel) -> (sym: Symbol)
    ensures
        gm_symbol_ok(sym),
        gm_pairs(sym) == seg_view(segs@),
        sym.meta->GridMatrix_0.version == version,
        sym.meta->GridMatrix_0.ec_level == ec,
{
    let mut modes: Vec<GmMode> = Vec::new();
    let mut segments: Vec<Segment> = Vec::new();
    let mut k: usize = 0;
    while k < segs.len()
        invariant
            k <= segs@.len(),
            modes@.len() == k,
            segments@.len() == k,
            forall|j: int| 0 <= j < k ==> #[trigger] modes@[j] == segs@[j].0,
            forall|j: int|
                0 <= j < k ==> (#[trigger] segments@[j]).mode == segment_mode(segs@[j].0)
                    && segments@[j].data@ == segs@[j].1@,
        decreases segs@.len() - k,
    {
        let m = segs[k].0;
        modes.push(m);
        segments.push(to_segment(m, copy_bytes(segs[k].1.as_slice())));
        k = k + 1;
    }
    let meta = GridMatrixMeta { version, ec_level: ec, modes };
    let sym = Symbol::new(Symbology::GridMatrix, segments, SymbolMeta::GridMatrix(meta));
    proof {
        assert(gm_pairs(sym) =~= seg_view(segs@));
    }
    sym
}

/// The segments of canonical data always encode; the result is their bitstream.
fn canonical_bits(data: &[u8]) -> (r: (Vec<(GmMode, Vec<u8>)>, Vec<bool>))
    ensures
        canonical_ok(data@, seg_view(r.0@)),
        r.1@ == stream_spec(seg_view(r.0@)),
{
    let segs = canonical_segments(data);
    proof {
        lemma_canonical_encodable(data@, seg_view(segs@));
    }
    let bits = encode_segments(segs.as_slice());
    match bits {
        Ok(b) => (segs, b),
        Err(_) => {
            proof {
                assert(false);
            }
            (segs, Vec::new())
        },
    }
}

/// How many 7-bit codewords `n` bits fill.
fn codewords_for(n: usize) -> (c: usize)
    ensures
        c == ceil7(n as int),
{
    n / 7 + (if n % 7 != 0 { 1usize } else { 0usize })
}

/// Grid Matrix encoder.
#[derive(Debug, Default, Clone, Copy)]
pub struct GridMatrixEncoder;

impl GridMatrixEncoder {
    /// A new encoder.
    pub fn new() -> (e: Self) {
        GridMatrixEncoder
    }

    /// Build a reproducible symbol from raw `data`: the canonical mode segmentation,
    /// the smallest version that holds it at that version's recommended level.
    pub fn build(&self, data: &[u8]) -> (r: Result<Symbol, Error>)
        ensures
            build_ok(data@, r),
    {
        let (segs, bits) = canonical_bits(data);
        let ghost sv = seg_view(segs@);
        let ndc = codewords_for(bits.len());
        let mut v: u8 = 1;
        while v <= 13
            invariant
                1 <= v <= 14,
                sv == seg_view(segs@),
                canonical_ok(data@, sv),
                ndc == needed(sv),
                forall|w: int| 1 <= w < v ==> !fits_at(w, rec_level(w), needed(sv)),
            decreases 14 - v,
        {
            let ec = recommended_ec(v);
            let ver = Version::new(v).unwrap();
            let cap = ver.data_codewords(ec);
            if cap > 0 && cap >= ndc {
                let sym = build_symbol(&segs, ver, ec);
                return Ok(sym);
            }
            v = v + 1;
        }
        proof {
            assert(canonical_ok(data@, sv));
        }
        Err(Error::Capacity)
    }

    /// Like `build`, at a given level: the smallest version that holds the data there.
    pub fn build_with_ec(&self, data: &[u8], ec: EcLevel) -> (r: Result<Symbol, Error>)
        ensures
            match r {
                Ok(sym) => {
                    let v = sym.meta->GridMatrix_0.version.num();
                    &&& gm_symbol_ok(sym)
                    &&& canonical_ok(data@, gm_pairs(sym))
                    &&& sym.meta->GridMatrix_0.ec_level == ec
                    &&& fits_at(v, level_number(ec), needed(gm_pairs(sym)))
                    &&& forall|w: int| 1 <= w < v ==> !fits_at(w, level_number(ec), needed(gm_pairs(sym)))
                },
                Err(err) => err == Error::Capacity && exists|segs: Seq<(GmMode, Seq<u8>)>|
                    #[trigger] canonical_ok(data@, segs) && forall|w: int|
                        1 <= w <= 13 ==> !fits_at(w, level_number(ec), needed(segs)),
            },
    {
        let (segs, bits) = canonical_bits(data);
        let ndc = codewords_for(bits.len());
        match smallest_version_for(ndc, ec) {
            Some(ver) => Ok(build_symbol(&segs, ver, ec)),
            None => Err(Error::Capacity),
        }
    }

    /// Build at a given version and level, failing where the data does not fit.
    pub fn build_sized(&self, data: &[u8], version: Version, ec: EcLevel) -> (r: Result<Symbol, Error>)
        ensures
            match r {
                Ok(sym) => {
                    &&& gm_symbol_ok(sym)
                    &&& canonical_ok(data@, gm_pairs(sym))
                    &&& sym.meta->GridMatrix_0.version == version
                    &&& sym.meta->GridMatrix_0.ec_level == ec
                    &&& fits_at(version.num(), level_number(ec), needed(gm_pairs(sym)))
                },
                Err(err) => err == Error::Capacity && exists|segs: Seq<(GmMode, Seq<u8>)>|
                    #[trigger] canonical_ok(data@, segs) && !fits_at(
                        version.num(),
                        level_number(ec),
                        needed(segs),
                    ),
            },
    {
        let (segs, bits) = canonical_bits(data);
        let ndc = codewords_for(bits.len());
        let cap = version.data_codewords(ec);
        if cap == 0 || ndc > cap {
            return Err(Error::Capacity);
        }
        Ok(build_symbol(&segs, version, ec))
    }

    /// Build from UTF-8 `text`.
    pub fn build_text(&self, text: &str) -> (r: Result<Symbol, Error>)
        ensures
            build_ok(text.spec_bytes(), r),
    {
        self.build(text.as_bytes())
    }

    /// Render a Grid Matrix symbol: its mode list paired with its segments' bytes,
    /// in the version and level its parameters name.
    pub fn encode(&self, symbol: &Symbol) -> (r: Result<Encoding, Error>)
        ensures
            symbol.symbology != Symbology::GridMatrix ==> r == Err::<Encoding, Error>(
                Error::InvalidParameter,
            ),
            symbol.symbology == Symbology::GridMatrix && !(symbol.meta is GridMatrix) ==> r == Err::<
                Encoding,
                Error,
            >(Error::InvalidParameter),
            symbol.symbology == Symbology::GridMatrix && symbol.meta is GridMatrix ==> {
                let meta = symbol.meta->GridMatrix_0;
                let segs = gm_pairs(*symbol);
                let v = meta.version.num();
                let e = level_number(meta.ec_level);
                if meta.modes@.len() != symbol.segments@.len() || segs.len() == 0 {
                    r == Err::<Encoding, Error>(Error::InvalidParameter)
                } else if enc_fail(segs, 0) is Some {
                    r == Err::<Encoding, Error>(enc_fail(segs, 0).unwrap())
                } else if !fits_at(v, e, needed(segs)) {
                    r == Err::<Encoding, Error>(Error::Capacity)
                } else {
                    r matches Ok(Encoding::Matrix(m)) && m.wf() && m.width == 6 + 12 * v && m.height
                        == m.width && m.quiet_zone == QUIET_ZONE && forall|px: int, py: int|
                        0 <= px < m.width && 0 <= py < m.height ==> #[trigger] m.at(px, py)
                            == gm_module(2 * v + 1, v, e, gm_cws(stream_spec(segs), v, e), px, py)
                }
            },
    {
        if symbol.symbology != Symbology::GridMatrix {
            return Err(Error::InvalidParameter);
        }
        let meta = match &symbol.meta {
            SymbolMeta::GridMatrix(m) => m,
            _ => {
                return Err(Error::InvalidParameter);
            },
        };
        if meta.modes.len() != symbol.segments.len() {
            return Err(Error::InvalidParameter);
        }
        let mut segs: Vec<(GmMode, Vec<u8>)> = Vec::new();
        let mut k: usize = 0;
        while k < symbol.segments.len()
            invariant
                k <= symbol.segments@.len(),
                meta.modes@.len() == symbol.segments@.len(),
                segs@.len() == k,
                forall|j: int|
                    0 <= j < k ==> (#[trigger] segs@[j]).0 == meta.modes@[j] && segs@[j].1@
                        == symbol.segments@[j].data@,
            decreases symbol.segments@.len() - k,
        {
            segs.push((meta.modes[k], copy_bytes(symbol.segments[k].data.as_slice())));
            k = k + 1;
        }
        proof {
            assert(seg_view(segs@) =~= gm_pairs(*symbol));
        }
        let bits = match encode_segments(segs.as_slice()) {
            Ok(b) => b,
            Err(e) => {
                return Err(e);
            },
        };
        let ndc = codewords_for(bits.len());
        let cap = meta.version.data_codewords(meta.ec_level);
        if cap == 0 || ndc > cap {
            return Err(Error::Capacity);
        }
        let _vn = meta.version.number();
        let cws = add_ecc(bits.as_slice(), meta.version, meta.ec_level);
        let matrix = render(meta.version, meta.ec_level, cws.as_slice());
        Ok(Encoding::Matrix(matrix))
    }
}
} // verus!
