//! Grid Matrix decoding: module grid → codeword stream → payload.
//!
//! The structural decoder takes a clean, sampled module grid, recovers the version
//! from the grid size and the EC level from the layer-id rings, corrects each
//! Reed–Solomon block, and reads the segments back.
use vstd::prelude::*;
use super::bitstream::pw2;
use super::data::{GmMode, decode_segments, decode_spec, seg_view};
use super::encode::{data_off, gm_pairs, gm_symbol_ok, to_segment, segment_mode, slot};
use super::gf::{self, gm_codeword, seven_bit};
use super::layout::{ec_score, lemma_stream_shape, read_codewords, read_ec_level, read_stream};
use super::tables::{Block, EcLevel, Version, blocks, blocks_spec, data_cws_spec, level_number};
use super::tables::{table_ok, lemma_tables_consistent};
use super::GridMatrixMeta;
use crate::codes::hanxin::gf::within_errors;
use crate::error::Error;
use crate::output::{BitMatrix, Encoding};
use crate::segment::Segment;
use crate::symbol::{Symbol, SymbolMeta};
use crate::symbology::Symbology;

verus! {

/// Block `i` as received: its codewords, read from slots `nb·j + i`.
pub open spec fn received_block(cws: Seq<u8>, bl: Seq<Block>, i: int) -> Seq<u8> {
    Seq::new(bl[i].total as nat, |j: int| cws[bl.len() * j + i])
}

/// `c` corrects received block `i`: a codeword within half its check symbols of
/// what was received, and what was received where that already is a codeword.
pub open spec fn corrects(cws: Seq<u8>, bl: Seq<Block>, i: int, c: Seq<u8>) -> bool {
    let rb = received_block(cws, bl, i);
    &&& c.len() == rb.len()
    &&& gm_codeword(c, bl[i].ec as int)
    &&& within_errors(c, rb, (bl[i].ec / 2) as int)
    &&& gm_codeword(rb, bl[i].ec as int) ==> c == rb
}

/// The data codewords `d` holds for block `i` are those of a correction of it.
pub open spec fn block_corrected(cws: Seq<u8>, bl: Seq<Block>, i: int, d: Seq<u8>) -> bool {
    exists|c: Seq<u8>|
        #[trigger] corrects(cws, bl, i, c) && d.subrange(
            data_off(bl, i),
            data_off(bl, i) + bl[i].total - bl[i].ec,
        ) == c.subrange(0, bl[i].total - bl[i].ec)
}

/// `d` holds, block after block, the data part of a correction of each received
/// block of stream `cws` (version `v`, level number `e`).
pub open spec fn corrected_data(cws: Seq<u8>, v: int, e: int, d: Seq<u8>) -> bool {
    let bl = blocks_spec(v, e);
    &&& d.len() == data_cws_spec(v, e)
    &&& forall|i: int| 0 <= i < bl.len() ==> #[trigger] block_corrected(cws, bl, i, d)
}

/// The bits of 7-bit codewords, most significant first.
pub open spec fn cw_bits(d: Seq<u8>) -> Seq<bool> {
    Seq::new(7 * d.len(), |t: int| (d[t / 7] as int / pw2((6 - t % 7) as nat) as int) % 2 == 1)
}

/// De-interleave the codeword stream into its Reed–Solomon blocks, correct each, and
/// join the corrected data codewords in block order.
#[verifier::rlimit(40)]
fn deinterleave_and_correct(cws: &[u8], version: Version, ec: EcLevel) -> (r: Result<Vec<u8>, Error>)
    requires
        data_cws_spec(version.num(), level_number(ec)) > 0,
        cws@.len() == 2 * (2 * version.num() + 1) * (2 * version.num() + 1),
        seven_bit(cws@),
    ensures
        r matches Ok(d) ==> corrected_data(cws@, version.num(), level_number(ec), d@),
        r matches Err(x) ==> x == Error::ErrorCorrectionFailed && exists|i: int|
            0 <= i < blocks_spec(version.num(), level_number(ec)).len() && !gm_codeword(
                #[trigger] received_block(cws@, blocks_spec(version.num(), level_number(ec)), i),
                blocks_spec(version.num(), level_number(ec))[i].ec as int,
            ),
{
    let _vn = version.number();
    let ghost v = version.num();
    let ghost e = level_number(ec);
    proof {
        crate::codes::gridmatrix::encode::lemma_offsets(v, e);
        crate::codes::gridmatrix::encode::lemma_blocks_fit(v, e);
        crate::codes::gridmatrix::encode::lemma_slots(v, e);
    }
    let bl = blocks(version, ec);
    let nb = bl.len();
    let ghost bls = bl@;
    let total_cw = cws.len();
    let mut data: Vec<u8> = Vec::new();
    let ghost mut fixed: Seq<Seq<u8>> = Seq::empty();
    let mut i: usize = 0;
    proof {
        assert forall|k: int| 0 <= k < bls.len() implies (#[trigger] bls[k]).total <= 255 by {
            crate::codes::gridmatrix::tables::lemma_block_total_small(v, e, k);
        }
    }
    while i < nb
        invariant
            v == version.num(),
            e == level_number(ec),
            bls == bl@,
            bls == blocks_spec(v, e),
            nb == bls.len(),
            total_cw == cws@.len(),
            seven_bit(cws@),
            i <= nb,
            data@.len() == data_off(bls, i as int),
            fixed.len() == i,
            forall|k: int|
                0 <= k < bls.len() ==> 0 <= #[trigger] data_off(bls, k) && data_off(bls, k)
                    + bls[k].total - bls[k].ec <= data_cws_spec(v, e),
            data_off(bls, nb as int) == data_cws_spec(v, e),
            forall|k: int| 0 <= k < bls.len() ==> 1 <= (#[trigger] bls[k]).ec < bls[k].total,
            forall|k: int| 0 <= k < bls.len() ==> (#[trigger] bls[k]).total <= 255,
            forall|k: int, j: int|
                0 <= k < bls.len() && 0 <= j < bls[k].total ==> #[trigger] slot(nb as int, j, k)
                    < total_cw,
            forall|k: int|
                0 <= k < i ==> #[trigger] corrects(cws@, bls, k, fixed[k]) && data@.subrange(
                    data_off(bls, k),
                    data_off(bls, k) + bls[k].total - bls[k].ec,
                ) == fixed[k].subrange(0, bls[k].total - bls[k].ec),
        decreases nb - i,
    {
        let blk = bl[i];
        let mut block: Vec<u8> = Vec::new();
        let mut j: usize = 0;
        while j < blk.total
            invariant
                blk == bls[i as int],
                nb == bls.len(),
                i < nb,
                total_cw == cws@.len(),
                seven_bit(cws@),
                j <= blk.total,
                forall|k: int, jj: int|
                    0 <= k < bls.len() && 0 <= jj < bls[k].total ==> #[trigger] slot(
                        nb as int,
                        jj,
                        k,
                    ) < total_cw,
                block@ == received_block(cws@, bls, i as int).subrange(0, j as int),
                seven_bit(block@),
            decreases blk.total - j,
        {
            proof {
                assert(slot(nb as int, j as int, i as int) < total_cw);
            }
            block.push(cws[nb * j + i]);
            proof {
                assert(block@ =~= received_block(cws@, bls, i as int).subrange(0, j + 1));
            }
            j = j + 1;
        }
        proof {
            assert(block@ =~= received_block(cws@, bls, i as int));
            assert(blk.total <= 0xffff && blk.ec <= 0xffff);
        }
        let corrected = match gf::decode(block.as_slice(), blk.ec) {
            Some(c) => c,
            None => {
                proof {
                    assert(!gm_codeword(received_block(cws@, bls, i as int), bls[i as int].ec as int));
                }
                return Err(Error::ErrorCorrectionFailed);
            },
        };
        let ds = blk.total - blk.ec;
        let ghost before = data@;
        let mut t: usize = 0;
        while t < ds
            invariant
                corrected@.len() == blk.total,
                ds == blk.total - blk.ec,
                t <= ds,
                data@ == before + corrected@.subrange(0, t as int),
            decreases ds - t,
        {
            data.push(corrected[t]);
            proof {
                assert(data@ =~= before + corrected@.subrange(0, t + 1));
            }
            t = t + 1;
        }
        proof {
            let off = data_off(bls, i as int);
            assert(data_off(bls, i + 1) == off + ds);
            assert(data@.subrange(off, off + ds) =~= corrected@.subrange(0, ds as int));
            assert forall|k: int| 0 <= k < i implies data@.subrange(
                data_off(bls, k),
                data_off(bls, k) + bls[k].total - bls[k].ec,
            ) == before.subrange(data_off(bls, k), data_off(bls, k) + bls[k].total - bls[k].ec) by {
                crate::codes::gridmatrix::encode::lemma_offsets_mono(bls, k + 1, i as int);
                assert(data@.subrange(data_off(bls, k), data_off(bls, k) + bls[k].total - bls[k].ec)
                    =~= before.subrange(data_off(bls, k), data_off(bls, k) + bls[k].total - bls[k].ec));
            }
            let old_fixed = fixed;
            fixed = fixed.push(corrected@);
            assert(corrects(cws@, bls, i as int, corrected@));
            assert forall|k: int| 0 <= k < i + 1 implies #[trigger] corrects(cws@, bls, k, fixed[k])
                && data@.subrange(data_off(bls, k), data_off(bls, k) + bls[k].total - bls[k].ec)
                == fixed[k].subrange(0, bls[k].total - bls[k].ec) by {
                if k < i {
                    assert(fixed[k] == old_fixed[k]);
                    assert(corrects(cws@, bls, k, old_fixed[k]));
                } else {
                    assert(fixed[k] == corrected@);
                }
            }
        }
        i = i + 1;
    }
    proof {
        assert forall|k: int| 0 <= k < bls.len() implies #[trigger] block_corrected(
            cws@,
            bls,
            k,
            data@,
        ) by {
            assert(corrects(cws@, bls, k, fixed[k]));
        }
    }
    Ok(data)
}

/// The bits of the data codewords, 7 each, most significant first.
fn codeword_bits(d: &Vec<u8>) -> (bits: Vec<bool>)
    requires
        d@.len() <= 0xffff,
    ensures
        bits@ == cw_bits(d@),
{
    let powers: [u8; 7] = [64, 32, 16, 8, 4, 2, 1];
    proof {
        assert(pw2(0) == 1 && pw2(1) == 2 && pw2(2) == 4 && pw2(3) == 8 && pw2(4) == 16 && pw2(5)
            == 32 && pw2(6) == 64) by {
            reveal_with_fuel(pw2, 7);
        }
    }
    let mut bits: Vec<bool> = Vec::new();
    let mut q: usize = 0;
    while q < d.len()
        invariant
            d@.len() <= 0xffff,
            q <= d@.len(),
            bits@.len() == 7 * q,
            forall|t: int| 0 <= t < 7 * q ==> #[trigger] bits@[t] == cw_bits(d@)[t],
            powers@ == seq![64u8, 32, 16, 8, 4, 2, 1],
            pw2(0) == 1 && pw2(1) == 2 && pw2(2) == 4 && pw2(3) == 8 && pw2(4) == 16 && pw2(5) == 32
                && pw2(6) == 64,
        decreases d@.len() - q,
    {
        let cw = d[q];
        let mut j: usize = 0;
        while j < 7
            invariant
                d@.len() <= 0xffff,
                q < d@.len(),
                cw == d@[q as int],
                j <= 7,
                bits@.len() == 7 * q + j,
                forall|t: int| 0 <= t < 7 * q + j ==> #[trigger] bits@[t] == cw_bits(d@)[t],
                powers@ == seq![64u8, 32, 16, 8, 4, 2, 1],
                pw2(0) == 1 && pw2(1) == 2 && pw2(2) == 4 && pw2(3) == 8 && pw2(4) == 16 && pw2(5)
                    == 32 && pw2(6) == 64,
            decreases 7 - j,
        {
            let b = (cw / powers[j]) % 2 == 1;
            proof {
                let t = 7 * q + j;
                vstd::arithmetic::div_mod::lemma_fundamental_div_mod_converse(t, 7, q as int, j as int);
                assert(powers@[j as int] == pw2((6 - j) as nat));
                assert(b == cw_bits(d@)[t]);
            }
            bits.push(b);
            j = j + 1;
        }
        q = q + 1;
    }
    proof {
        assert(bits@ =~= cw_bits(d@));
    }
    bits
}

/// The level a module grid's layer-id rings name: the first level with the best
/// positive score.
pub open spec fn level_read(m: BitMatrix, v: int, ec: EcLevel) -> bool {
    let mpd = 2 * v + 1;
    &&& forall|e: int| 1 <= e <= 5 ==> #[trigger] ec_score(m, v, mpd, e, v + 1) <= ec_score(
        m,
        v,
        mpd,
        level_number(ec),
        v + 1,
    )
    &&& forall|e: int| 1 <= e < level_number(ec) ==> #[trigger] ec_score(m, v, mpd, e, v + 1)
        < ec_score(m, v, mpd, level_number(ec), v + 1)
}

/// A grid side that names a version: `6 + 12·v` for `v` in 1–13.
pub open spec fn valid_size(w: int) -> bool {
    w >= 18 && (w - 6) % 12 == 0 && (w - 6) / 12 <= 13
}

/// What decoding module grid `m` gives: errors for a grid that is not square or
/// whose size names no version; otherwise a symbol in the version the size names and
/// the level the layer-id rings name, whose segments are those the corrected data
/// codewords spell.
pub open spec fn matrix_decode_ok(m: BitMatrix, r: Result<Symbol, Error>) -> bool {
    &&& m.width != m.height ==> r == Err::<Symbol, Error>(Error::Undecodable)
    &&& !valid_size(m.width as int) ==> r == Err::<Symbol, Error>(Error::Undecodable)
    &&& r matches Err(x) ==> x == Error::Undecodable || x == Error::Unsupported || x
        == Error::ErrorCorrectionFailed
    &&& r matches Ok(sym) ==> {
        let v = (m.width - 6) / 12;
        let meta = sym.meta->GridMatrix_0;
        &&& gm_symbol_ok(sym)
        &&& meta.version.num() == v
        &&& level_read(m, v, meta.ec_level)
        &&& data_cws_spec(v, level_number(meta.ec_level)) > 0
        &&& exists|d: Seq<u8>|
            #[trigger] corrected_data(
                read_stream(m, 2 * v + 1, ((2 * v + 1) * (2 * v + 1)) as nat),
                v,
                level_number(meta.ec_level),
                d,
            ) && decode_spec(cw_bits(d)) == Ok::<Seq<(GmMode, Seq<u8>)>, Error>(gm_pairs(sym))
    }
}

/// Grid Matrix structural decoder.
#[derive(Debug, Default, Clone, Copy)]
pub struct GridMatrixDecoder;

impl GridMatrixDecoder {
    /// A new decoder.
    pub fn new() -> (d: Self) {
        GridMatrixDecoder
    }

    /// Decode a sampled Grid Matrix module grid: the version from its size, the
    /// level from the layer-id rings, each Reed–Solomon block corrected, then the
    /// segments read from the corrected data codewords.
    pub fn decode_matrix(&self, matrix: &BitMatrix) -> (r: Result<Symbol, Error>)
        requires
            matrix.wf(),
        ensures
            matrix_decode_ok(*matrix, r),
    {
        if matrix.width != matrix.height {
            return Err(Error::Undecodable);
        }
        let size = matrix.width;
        if size < 18 || (size - 6) % 12 != 0 || (size - 6) / 12 > 13 {
            return Err(Error::Undecodable);
        }
        let version = match Version::new(((size - 6) / 12) as u8) {
            Some(v) => v,
            None => {
                return Err(Error::Undecodable);
            },
        };
        let ghost v = version.num();
        assert(matrix.width == 6 + 12 * v);
        let ec = match read_ec_level(version, matrix) {
            Some(e) => e,
            None => {
                return Err(Error::Undecodable);
            },
        };
        if version.data_codewords(ec) == 0 {
            return Err(Error::Undecodable);
        }
        let _vn = version.number();
        let cws = read_codewords(version, matrix);
        proof {
            lemma_stream_shape(*matrix, 2 * v + 1, ((2 * v + 1) * (2 * v + 1)) as nat);
            assert(cws@ == read_stream(*matrix, 2 * v + 1, ((2 * v + 1) * (2 * v + 1)) as nat));
            assert(2 * (2 * v + 1) * (2 * v + 1) == 2 * ((2 * v + 1) * (2 * v + 1))) by (nonlinear_arith);
        }
        let data = match deinterleave_and_correct(cws.as_slice(), version, ec) {
            Ok(d) => d,
            Err(e) => {
                return Err(e);
            },
        };
        let bits = codeword_bits(&data);
        let segs = match decode_segments(bits.as_slice()) {
            Ok(s) => s,
            Err(e) => {
                proof {
                    crate::codes::gridmatrix::data::lemma_decode_errors(bits@);
                }
                return Err(e);
            },
        };
        let mut modes: Vec<GmMode> = Vec::new();
        let mut segments: Vec<Segment> = Vec::new();
        let mut k: usize = 0;
        while k < segs.len()
            invariant
                k <= segs@.len(),
                modes@.len() == k,
                segments@.len() == k,
                forall|j: int| 0 <= j < k ==> #[trigger] modes@[j] == segs@[j].0,
                forall|j: int|
                    0 <= j < k ==> (#[trigger] segments@[j]).mode == segment_mode(segs@[j].0)
                        && segments@[j].data@ == segs@[j].1@,
            decreases segs@.len() - k,
        {
            let m = segs[k].0;
            modes.push(m);
            segments.push(to_segment(m, crate::segment::copy_bytes(segs[k].1.as_slice())));
            k = k + 1;
        }
        let meta = GridMatrixMeta { version, ec_level: ec, modes };
        let sym = Symbol::new(Symbology::GridMatrix, segments, SymbolMeta::GridMatrix(meta));
        proof {
            assert(gm_pairs(sym) =~= seg_view(segs@));
            assert(corrected_data(cws@, v, level_number(ec), data@));
            assert(corrected_data(
                read_stream(*matrix, 2 * v + 1, ((2 * v + 1) * (2 * v + 1)) as nat),
                v,
                level_number(ec),
                data@,
            ));
        }
        Ok(sym)
    }

    /// Decode an encoding (matrices only).
    pub fn decode(&self, encoding: &Encoding) -> (r: Result<Symbol, Error>)
        requires
            encoding matches Encoding::Matrix(m) ==> m.wf(),
        ensures
            encoding is Linear ==> r == Err::<Symbol, Error>(Error::Unsupported),
            encoding matches Encoding::Matrix(m) ==> matrix_decode_ok(*m, r),
    {
        match encoding {
            Encoding::Matrix(m) => self.decode_matrix(m),
            Encoding::Linear(_) => Err(Error::Unsupported),
        }
    }
}

} // verus!
