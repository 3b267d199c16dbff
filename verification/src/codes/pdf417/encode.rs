//! PDF417 symbol building: choosing the row/column geometry for a payload.
use vstd::prelude::*;
use vstd::string::StringSliceAdditionalSpecFns;
use crate::codes::pdf417::{EcLevel, Pdf417Meta, ec_count};
use crate::codes::pdf417::compaction::{encode_segments, encode_spec};
use crate::error::Error;
use crate::segment::{Mode, Segment, copy_bytes};
use crate::symbol::{Symbol, SymbolMeta};
use crate::symbology::Symbology;

verus! {

/// PDF417 encoder.
#[derive(Debug, Default, Clone, Copy)]
pub struct Pdf417Encoder;

/// The row count `cols` data columns need for `source` high-level codewords with
/// `k` check codewords (plus the length descriptor), at least three; `None` when
/// the column count is outside `1..=30`, the rows exceed ninety, or the data
/// region would not hold the codewords or exceed 928 data codewords.
pub open spec fn fit_rows(source: int, k: int, cols: int) -> Option<int> {
    if !(1 <= cols <= 30) {
        None
    } else {
        let need = source + 1 + k;
        let r0 = (need + cols - 1) / cols;
        let rows = if r0 < 3 { 3 } else { r0 };
        if rows > 90 {
            None
        } else {
            let n = cols * rows - k;
            if n < source + 1 || n > 928 {
                None
            } else {
                Some(rows)
            }
        }
    }
}

/// The pad codewords an admissible column count leaves.
pub open spec fn pad_of(source: int, k: int, cols: int) -> int {
    cols * fit_rows(source, k, cols)->0 - k - (source + 1)
}

/// `cols` is admissible, wastes no more than any narrower admissible count and
/// strictly less than any wider one.
pub open spec fn best_cols(source: int, k: int, cols: int) -> bool {
    &&& fit_rows(source, k, cols) is Some
    &&& forall|c: int|
        #[trigger] fit_rows(source, k, c) is Some ==> (c < cols ==> pad_of(source, k, cols) <= pad_of(source, k, c))
            && (c > cols ==> pad_of(source, k, cols) < pad_of(source, k, c))
}

/// Some geometry fits: the requested column count, or any when none is requested.
pub open spec fn dims_exist(source: int, k: int, columns: Option<usize>) -> bool {
    match columns {
        Some(c) => fit_rows(source, k, c as int) is Some,
        None => exists|c: int| #[trigger] fit_rows(source, k, c) is Some,
    }
}

/// `(cols, rows)` is the geometry chosen: the requested column count with its rows,
/// or, when none is requested, the least-padding one (the widest on a tie).
pub open spec fn dims_ok(source: int, k: int, columns: Option<usize>, cols: int, rows: int) -> bool {
    &&& fit_rows(source, k, cols) == Some(rows)
    &&& match columns {
        Some(c) => cols == c,
        None => best_cols(source, k, cols),
    }
}

/// The rows `cols` columns need, when admissible.
fn try_cols(source: usize, k: usize, cols: usize) -> (r: Option<usize>)
    requires
        source < 928,
        k <= 512,
    ensures
        r matches Some(rows) ==> fit_rows(source as int, k as int, cols as int) == Some(rows as int),
        r is None ==> fit_rows(source as int, k as int, cols as int) is None,
{
    if !(1 <= cols && cols <= 30) {
        return None;
    }
    let need = source + 1 + k;
    let r0 = (need + cols - 1) / cols;
    let rows = if r0 < 3 { 3 } else { r0 };
    if rows > 90 {
        return None;
    }
    assert(cols * rows <= 2700) by (nonlinear_arith)
        requires
            cols <= 30,
            rows <= 90,
    ;
    let total = cols * rows;
    if total < k + source + 1 {
        return None;
    }
    let n = total - k;
    if n > 928 {
        return None;
    }
    Some(rows)
}

/// Choose `(columns, rows)` for `source` high-level codewords at `level`: the
/// requested column count when given, else the admissible geometry with the fewest
/// pad codewords, preferring the wider on a tie. `Capacity` when none fits.
pub fn choose_dimensions(source: usize, level: EcLevel, columns: Option<usize>) -> (r: Result<(usize, usize), Error>)
    ensures
        r is Ok <==> dims_exist(source as int, ec_count(level.spec_level()) as int, columns),
        r matches Ok((c, rows)) ==> dims_ok(source as int, ec_count(level.spec_level()) as int, columns, c as int, rows as int),
        r is Err ==> r == Err::<(usize, usize), Error>(Error::Capacity),
{
    let k = level.ec_codewords();
    let ghost kk = k as int;
    let ghost s = source as int;
    if source >= 928 {
        proof {
            assert forall|c: int| #[trigger] fit_rows(s, kk, c) is None by {}
        }
        return Err(Error::Capacity);
    }
    match columns {
        Some(cols) => match try_cols(source, k, cols) {
            Some(rows) => Ok((cols, rows)),
            None => Err(Error::Capacity),
        },
        None => {
            let mut best: Option<(usize, usize, usize)> = None;
            let mut cols: usize = 1;
            while cols <= 30
                invariant
                    1 <= cols <= 31,
                    source < 928,
                    k == kk,
                    s == source,
                    2 <= k <= 512,
                    best matches Some((bc, br, bp)) ==> {
                        &&& 1 <= bc < cols
                        &&& fit_rows(s, kk, bc as int) == Some(br as int)
                        &&& bp == pad_of(s, kk, bc as int)
                        &&& forall|c: int|
                            1 <= c < cols && #[trigger] fit_rows(s, kk, c) is Some ==> (c < bc ==> bp <= pad_of(s, kk, c))
                                && (c > bc ==> bp < pad_of(s, kk, c))
                    },
                    best is None ==> forall|c: int| 1 <= c < cols ==> #[trigger] fit_rows(s, kk, c) is None,
                decreases 31 - cols,
            {
                match try_cols(source, k, cols) {
                    Some(rows) => {
                        assert(cols * rows <= 2700) by (nonlinear_arith)
                            requires
                                cols <= 30,
                                rows <= 90,
                        ;
                        let pad = cols * rows - k - (source + 1);
                        let take = match best {
                            None => true,
                            Some((_, _, bp)) => pad <= bp,
                        };
                        if take {
                            best = Some((cols, rows, pad));
                        }
                    },
                    None => {},
                }
                cols = cols + 1;
            }
            proof {
                assert forall|c: int| !(1 <= c <= 30) implies #[trigger] fit_rows(s, kk, c) is None by {}
            }
            match best {
                Some((c, rows, _)) => {
                    proof {
                        assert(fit_rows(s, kk, c as int) is Some);
                    }
                    Ok((c, rows))
                },
                None => {
                    proof {
                        assert forall|c: int| #[trigger] fit_rows(s, kk, c) is None by {
                            if 1 <= c <= 30 {
                                assert(1 <= c < cols);
                            }
                        }
                    }
                    Err(Error::Capacity)
                },
            }
        },
    }
}

/// The left and right row-indicator codeword values for row `y` (ISO/IEC 15438 §5.5).
pub fn row_indicators(y: usize, rows: usize, cols: usize, ec_level: usize) -> (r: (usize, usize))
    requires
        1 <= rows,
        1 <= cols,
        30 * (y / 3) + rows + cols + 3 * ec_level <= usize::MAX,
    ensures
        ({
            let base = 30 * (y / 3);
            (r.0 as int, r.1 as int) == (if y % 3 == 0 {
                (base + (rows - 1) / 3, base + (cols - 1))
            } else if y % 3 == 1 {
                (base + ec_level * 3 + (rows - 1) % 3, base + (rows - 1) / 3)
            } else {
                (base + (cols - 1), base + ec_level * 3 + (rows - 1) % 3)
            })
        }),
{
    let cluster = y % 3;
    let base = 30 * (y / 3);
    if cluster == 0 {
        (base + (rows - 1) / 3, base + (cols - 1))
    } else if cluster == 1 {
        (base + ec_level * 3 + (rows - 1) % 3, base + (rows - 1) / 3)
    } else {
        (base + (cols - 1), base + ec_level * 3 + (rows - 1) % 3)
    }
}

/// What building from `segs` at `level` with `columns` gives: the compaction error,
/// `Capacity` when no geometry fits, else a PDF417 symbol of those segments whose
/// parameters pin the chosen geometry and the level.
pub open spec fn build_ok(segs: Seq<Segment>, level: EcLevel, columns: Option<usize>, r: Result<Symbol, Error>) -> bool {
    match encode_spec(segs) {
        Err(e) => r == Err::<Symbol, Error>(e),
        Ok(stream) => {
            let k = ec_count(level.spec_level()) as int;
            &&& (r is Ok <==> dims_exist(stream.len() as int, k, columns))
            &&& (r is Err ==> r == Err::<Symbol, Error>(Error::Capacity))
            &&& (r matches Ok(sym) ==> {
                &&& sym.symbology == Symbology::Pdf417
                &&& sym.segments@ == segs
                &&& sym.meta matches SymbolMeta::Pdf417(m) && m.ec_level == level && dims_ok(
                    stream.len() as int,
                    k,
                    columns,
                    m.columns as int,
                    m.rows as int,
                )
            })
        },
    }
}

impl Pdf417Encoder {
    /// A new encoder.
    pub fn new() -> (e: Self) {
        Pdf417Encoder
    }

    /// Build a reproducible symbol from `segments` at error-correction `level`,
    /// choosing the column count; the parameters pin the chosen geometry.
    pub fn build(&self, segments: Vec<Segment>, level: EcLevel) -> (r: Result<Symbol, Error>)
        ensures
            build_ok(segments@, level, None, r),
    {
        self.build_sized(segments, level, None)
    }

    /// Like `build` but with an explicit data-column count (`1..=30`).
    pub fn build_sized(&self, segments: Vec<Segment>, level: EcLevel, columns: Option<usize>) -> (r: Result<
        Symbol,
        Error,
    >)
        ensures
            build_ok(segments@, level, columns, r),
    {
        let stream = match encode_segments(&segments) {
            Ok(s) => s,
            Err(e) => return Err(e),
        };
        let (columns, rows) = match choose_dimensions(stream.len(), level, columns) {
            Ok(d) => d,
            Err(e) => return Err(e),
        };
        let meta = Pdf417Meta { rows, columns, ec_level: level };
        Ok(Symbol::new(Symbology::Pdf417, segments, SymbolMeta::Pdf417(meta)))
    }

    /// Build a symbol from UTF-8 `text` as a single text segment.
    pub fn build_text(&self, text: &str, level: EcLevel) -> (r: Result<Symbol, Error>)
        ensures
            exists|segs: Seq<Segment>| #[trigger] text_segment(segs, text.spec_bytes()) && build_ok(segs, level, None, r),
    {
        let seg = Segment::alphanumeric(copy_bytes(text.as_bytes()));
        let v = vec![seg];
        let ghost segs = v@;
        let r = self.build(v, level);
        assert(text_segment(segs, text.spec_bytes()));
        r
    }
}

/// `segs` is one text segment holding `bytes`.
pub open spec fn text_segment(segs: Seq<Segment>, bytes: Seq<u8>) -> bool {
    segs.len() == 1 && segs[0].mode == Mode::Alphanumeric && segs[0].data@ == bytes
}

} // verus!
