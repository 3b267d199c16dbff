//! Postal (height-modulated / 4-state) symbologies: USPS POSTNET and PLANET
//! (2-state), Royal Mail RM4SCC and Dutch KIX (4-state).
use vstd::prelude::*;
use crate::error::Error;
use crate::output::{BitMatrix, Encoding};
use crate::segment::{Mode, Segment, copy_bytes};
use crate::symbol::{Symbol, SymbolMeta};
use crate::symbology::Symbology;
use vstd::string::StringSliceAdditionalSpecFns;
use bars::{BarState, asc, desc, bar_at, postal_grid_ok, bars_to_matrix, matrix_to_bars, postal_module};
use bars::{lemma_bars_round_trip};

pub mod bars;
pub mod imb;
pub mod postnet;
pub mod rm4scc;

verus! {

/// Which member of the postal family a symbol is.
#[derive(Debug, Clone, Copy, PartialEq, Eq, Structural)]
pub enum PostalVariant {
    /// USPS POSTNET (2-state).
    Postnet,
    /// USPS PLANET (2-state).
    Planet,
    /// USPS Intelligent Mail Barcode (4-state, 65 bars).
    IntelligentMail,
    /// Royal Mail RM4SCC (4-state).
    RoyalMail,
    /// Dutch KIX (4-state, no checksum or framing bars).
    KixCode,
}


/// The symbology of a variant.
pub open spec fn variant_symbology(v: PostalVariant) -> Symbology {
    match v {
        PostalVariant::Postnet => Symbology::Postnet,
        PostalVariant::Planet => Symbology::Planet,
        PostalVariant::IntelligentMail => Symbology::IntelligentMail,
        PostalVariant::RoyalMail => Symbology::RoyalMail,
        PostalVariant::KixCode => Symbology::KixCode,
    }
}

/// The variant of a postal symbology.
pub open spec fn symbology_variant(s: Symbology) -> Option<PostalVariant> {
    match s {
        Symbology::Postnet => Some(PostalVariant::Postnet),
        Symbology::Planet => Some(PostalVariant::Planet),
        Symbology::IntelligentMail => Some(PostalVariant::IntelligentMail),
        Symbology::RoyalMail => Some(PostalVariant::RoyalMail),
        Symbology::KixCode => Some(PostalVariant::KixCode),
        _ => None,
    }
}

impl PostalVariant {
    /// The symbology this variant corresponds to.
    pub fn symbology(self) -> (s: Symbology)
        ensures
            s == variant_symbology(self),
    {
        match self {
            PostalVariant::Postnet => Symbology::Postnet,
            PostalVariant::Planet => Symbology::Planet,
            PostalVariant::IntelligentMail => Symbology::IntelligentMail,
            PostalVariant::RoyalMail => Symbology::RoyalMail,
            PostalVariant::KixCode => Symbology::KixCode,
        }
    }

    /// The variant a symbology maps to, if it is a postal one.
    pub fn from_symbology(s: Symbology) -> (r: Option<PostalVariant>)
        ensures
            r == symbology_variant(s),
    {
        match s {
            Symbology::Postnet => Some(PostalVariant::Postnet),
            Symbology::Planet => Some(PostalVariant::Planet),
            Symbology::IntelligentMail => Some(PostalVariant::IntelligentMail),
            Symbology::RoyalMail => Some(PostalVariant::RoyalMail),
            Symbology::KixCode => Some(PostalVariant::KixCode),
            _ => None,
        }
    }
}

/// Parameters needed to re-encode a postal symbol: which family member it is.
#[derive(Debug, Clone, PartialEq, Eq)]
pub struct PostalMeta {
    /// The postal family member.
    pub variant: PostalVariant,
}

impl PostalMeta {
    /// Parameters for the given variant.
    pub fn new(variant: PostalVariant) -> (m: Self)
        ensures
            m.variant == variant,
    {
        PostalMeta { variant }
    }
}

/// `sym` is a postal symbol of `variant` with the given segments (mode, bytes).
pub open spec fn postal_symbol(sym: Symbol, variant: PostalVariant, segs: Seq<(Mode, Seq<u8>)>) -> bool {
    &&& sym.symbology == variant_symbology(variant)
    &&& sym.meta == SymbolMeta::Postal(PostalMeta { variant })
    &&& sym.segments@.len() == segs.len()
    &&& forall|k: int| 0 <= k < segs.len() ==> (#[trigger] sym.segments@[k]).mode == segs[k].0 && sym.segments@[k].data@ == segs[k].1
}

fn symbol_of(variant: PostalVariant, segments: Vec<Segment>) -> (sym: Symbol)
    ensures
        sym.symbology == variant_symbology(variant),
        sym.meta == SymbolMeta::Postal(PostalMeta { variant }),
        sym.segments@ == segments@,
{
    Symbol::new(variant.symbology(), segments, SymbolMeta::Postal(PostalMeta::new(variant)))
}

/// The bytes of the first segment in one of the accepted modes.
pub open spec fn first_data(segs: Seq<Segment>, alnum: bool) -> Option<Seq<u8>>
    decreases segs.len(),
{
    if segs.len() == 0 {
        None
    } else if segs[0].mode == Mode::Numeric || (alnum && segs[0].mode == Mode::Alphanumeric) {
        Some(segs[0].data@)
    } else {
        first_data(segs.drop_first(), alnum)
    }
}

/// The bytes of the numeric segments, in order.
pub open spec fn numerics(segs: Seq<Segment>) -> Seq<Seq<u8>>
    decreases segs.len(),
{
    if segs.len() == 0 {
        Seq::empty()
    } else if segs[0].mode == Mode::Numeric {
        seq![segs[0].data@] + numerics(segs.drop_first())
    } else {
        numerics(segs.drop_first())
    }
}

fn find_data(segs: &Vec<Segment>, alnum: bool) -> (r: Option<Vec<u8>>)
    ensures
        match first_data(segs@, alnum) {
            Some(d) => r matches Some(v) && v@ == d,
            None => r is None,
        },
{
    let mut i: usize = 0;
    proof {
        assert(segs@.skip(0) =~= segs@);
    }
    while i < segs.len()
        invariant
            i <= segs@.len(),
            first_data(segs@, alnum) == first_data(segs@.skip(i as int), alnum),
        decreases segs@.len() - i,
    {
        proof {
            assert(segs@.skip(i as int)[0] == segs@[i as int]);
            assert(segs@.skip(i as int).drop_first() =~= segs@.skip(i + 1));
        }
        let m = &segs[i].mode;
        let hit = match m {
            Mode::Numeric => true,
            Mode::Alphanumeric => alnum,
            _ => false,
        };
        if hit {
            return Some(copy_bytes(segs[i].data.as_slice()));
        }
        i = i + 1;
    }
    proof {
        assert(segs@.skip(i as int) =~= Seq::<Segment>::empty());
    }
    None
}

/// The first two numeric segments' bytes (the second empty where there is none).
fn imb_fields(segs: &Vec<Segment>) -> (r: Option<(Vec<u8>, Vec<u8>)>)
    ensures
        numerics(segs@).len() == 0 ==> r is None,
        numerics(segs@).len() > 0 ==> (r matches Some((t, rt)) && t@ == numerics(segs@)[0]
            && rt@ == (if numerics(segs@).len() > 1 { numerics(segs@)[1] } else { Seq::<u8>::empty() })),
{
    let mut found: Vec<Vec<u8>> = Vec::new();
    let mut i: usize = 0;
    proof {
        assert(segs@.skip(0) =~= segs@);
        assert(Seq::new(found@.len(), |k: int| found@[k]@) + numerics(segs@) =~= numerics(segs@));
    }
    while i < segs.len() && found.len() < 2
        invariant
            i <= segs@.len(),
            found@.len() <= 2,
            numerics(segs@) == Seq::new(found@.len(), |k: int| found@[k]@) + numerics(segs@.skip(i as int)),
        decreases segs@.len() - i,
    {
        proof {
            assert(segs@.skip(i as int)[0] == segs@[i as int]);
            assert(segs@.skip(i as int).drop_first() =~= segs@.skip(i + 1));
        }
        let is_num = match &segs[i].mode {
            Mode::Numeric => true,
            _ => false,
        };
        if is_num {
            let ghost before = found@;
            found.push(copy_bytes(segs[i].data.as_slice()));
            proof {
                assert(Seq::new(found@.len(), |k: int| found@[k]@) =~= Seq::new(before.len(), |k: int| before[k]@).push(segs@[i as int].data@));
            }
        }
        i = i + 1;
    }
    if found.len() == 0 {
        proof {
            if i == segs@.len() {
                assert(segs@.skip(i as int) =~= Seq::<Segment>::empty());
            }
        }
        return None;
    }
    let tracking = copy_bytes(found[0].as_slice());
    let routing = if found.len() > 1 {
        copy_bytes(found[1].as_slice())
    } else {
        proof {
            if i == segs@.len() {
                assert(segs@.skip(i as int) =~= Seq::<Segment>::empty());
            }
        }
        Vec::new()
    };
    Some((tracking, routing))
}


/// The bars a postal symbol encodes to, or why it cannot be encoded.
pub open spec fn postal_bars_spec(sym: Symbol) -> Result<Seq<BarState>, Error> {
    match symbology_variant(sym.symbology) {
        None => Err(Error::Unsupported),
        Some(v) => if sym.meta matches SymbolMeta::Postal(m) && m.variant != v {
            Err(Error::InvalidParameter)
        } else {
            match v {
                PostalVariant::Postnet | PostalVariant::Planet => match first_data(sym.segments@, false) {
                    None => Err(Error::InvalidData),
                    Some(d) => if postnet::digits_ok(d) {
                        Ok(postnet::postnet_bars(d, v is Planet))
                    } else {
                        Err(Error::InvalidData)
                    },
                },
                PostalVariant::IntelligentMail => {
                    let ns = numerics(sym.segments@);
                    if ns.len() == 0 {
                        Err(Error::InvalidData)
                    } else {
                        let rt = if ns.len() > 1 { ns[1] } else { Seq::<u8>::empty() };
                        if imb::fields_ok(ns[0], rt) {
                            Ok(imb::imb_bars(ns[0], rt))
                        } else {
                            Err(Error::InvalidData)
                        }
                    }
                },
                _ => match first_data(sym.segments@, true) {
                    None => Err(Error::InvalidData),
                    Some(d) => if rm4scc::data_ok(d) {
                        Ok(rm4scc::rm4scc_bars(d, v is KixCode))
                    } else {
                        Err(Error::InvalidData)
                    },
                },
            }
        },
    }
}

/// Some bar reaches into the descender band.
pub open spec fn four_state(bars: Seq<BarState>) -> bool {
    exists|i: int| 0 <= i < bars.len() && desc(#[trigger] bars[i])
}

/// What decoding a bar sequence gives: the variant and its segments, chosen by the
/// bar count and whether any bar has a descender.
pub open spec fn postal_decode_spec(bars: Seq<BarState>) -> Result<(PostalVariant, Seq<(Mode, Seq<u8>)>), Error> {
    let n = bars.len();
    if n == 65 {
        match imb::imb_decode_spec(bars) {
            Ok((t, rt)) => Ok((PostalVariant::IntelligentMail, seq![(Mode::Numeric, t), (Mode::Numeric, rt)])),
            Err(e) => Err(e),
        }
    } else if !four_state(bars) && n >= 7 && (n - 2) % 5 == 0 {
        match postnet::postnet_decode_spec(bars) {
            Ok((v, d)) => Ok((v, seq![(Mode::Numeric, d)])),
            Err(e) => Err(e),
        }
    } else if four_state(bars) && n % 4 == 2 && n >= 6 {
        match rm4scc::rm4scc_decode_spec(bars) {
            Ok((v, d)) => Ok((v, seq![(Mode::Alphanumeric, d)])),
            Err(e) => Err(e),
        }
    } else if four_state(bars) && n % 4 == 0 && n >= 4 {
        match rm4scc::kix_decode_spec(bars) {
            Ok((v, d)) => Ok((v, seq![(Mode::Alphanumeric, d)])),
            Err(e) => Err(e),
        }
    } else {
        Err(Error::Undecodable)
    }
}

/// The bars read from a well-formed postal grid.
pub open spec fn grid_bars(m: BitMatrix) -> Seq<BarState> {
    Seq::new(((m.width + 1) / 2) as nat, |i: int| bar_at(m, i))
}

/// Postal encoder.
#[derive(Debug, Default, Clone, Copy)]
pub struct PostalEncoder;

impl PostalEncoder {
    /// A new encoder.
    pub fn new() -> (e: Self) {
        PostalEncoder
    }

    /// Build a POSTNET symbol from ZIP/data digits (no check digit).
    pub fn build_postnet(&self, digits: &str) -> (r: Result<Symbol, Error>)
        ensures
            postnet::digits_ok(digits.spec_bytes()) ==> (r matches Ok(sym) && postal_symbol(
                sym,
                PostalVariant::Postnet,
                seq![(Mode::Numeric, digits.spec_bytes())],
            )),
            !postnet::digits_ok(digits.spec_bytes()) ==> r == Err::<Symbol, Error>(Error::InvalidData),
    {
        self.one_segment(PostalVariant::Postnet, digits.as_bytes(), false)
    }

    /// Build a PLANET symbol from data digits (no check digit).
    pub fn build_planet(&self, digits: &str) -> (r: Result<Symbol, Error>)
        ensures
            postnet::digits_ok(digits.spec_bytes()) ==> (r matches Ok(sym) && postal_symbol(
                sym,
                PostalVariant::Planet,
                seq![(Mode::Numeric, digits.spec_bytes())],
            )),
            !postnet::digits_ok(digits.spec_bytes()) ==> r == Err::<Symbol, Error>(Error::InvalidData),
    {
        self.one_segment(PostalVariant::Planet, digits.as_bytes(), false)
    }

    /// Build an RM4SCC symbol from a `0-9 A-Z` string (no checksum character).
    pub fn build_rm4scc(&self, data: &str) -> (r: Result<Symbol, Error>)
        ensures
            rm4scc::data_ok(data.spec_bytes()) ==> (r matches Ok(sym) && postal_symbol(
                sym,
                PostalVariant::RoyalMail,
                seq![(Mode::Alphanumeric, data.spec_bytes())],
            )),
            !rm4scc::data_ok(data.spec_bytes()) ==> r == Err::<Symbol, Error>(Error::InvalidData),
    {
        self.one_segment(PostalVariant::RoyalMail, data.as_bytes(), true)
    }

    /// Build a KIX symbol from a `0-9 A-Z` string.
    pub fn build_kix(&self, data: &str) -> (r: Result<Symbol, Error>)
        ensures
            rm4scc::data_ok(data.spec_bytes()) ==> (r matches Ok(sym) && postal_symbol(
                sym,
                PostalVariant::KixCode,
                seq![(Mode::Alphanumeric, data.spec_bytes())],
            )),
            !rm4scc::data_ok(data.spec_bytes()) ==> r == Err::<Symbol, Error>(Error::InvalidData),
    {
        self.one_segment(PostalVariant::KixCode, data.as_bytes(), true)
    }

    fn one_segment(&self, variant: PostalVariant, data: &[u8], alnum: bool) -> (r: Result<Symbol, Error>)
        ensures
            (if alnum { rm4scc::data_ok(data@) } else { postnet::digits_ok(data@) }) ==> (r matches Ok(sym)
                && postal_symbol(sym, variant, seq![(if alnum { Mode::Alphanumeric } else { Mode::Numeric }, data@)])),
            !(if alnum { rm4scc::data_ok(data@) } else { postnet::digits_ok(data@) }) ==> r == Err::<Symbol, Error>(
                Error::InvalidData,
            ),
    {
        let ok = if alnum { rm4scc::validate(data).is_ok() } else { postnet::validate_digits(data).is_ok() };
        if !ok {
            return Err(Error::InvalidData);
        }
        let seg = if alnum { Segment::alphanumeric(copy_bytes(data)) } else { Segment::numeric(copy_bytes(data)) };
        let mut segments: Vec<Segment> = Vec::new();
        segments.push(seg);
        Ok(symbol_of(variant, segments))
    }

    /// Build an Intelligent Mail symbol from a 20-digit tracking code and a routing
    /// code of 0, 5, 9 or 11 digits.
    pub fn build_imb(&self, tracking: &str, routing: &str) -> (r: Result<Symbol, Error>)
        ensures
            imb::fields_ok(tracking.spec_bytes(), routing.spec_bytes()) ==> (r matches Ok(sym) && postal_symbol(
                sym,
                PostalVariant::IntelligentMail,
                seq![(Mode::Numeric, tracking.spec_bytes()), (Mode::Numeric, routing.spec_bytes())],
            )),
            !imb::fields_ok(tracking.spec_bytes(), routing.spec_bytes()) ==> r == Err::<Symbol, Error>(
                Error::InvalidData,
            ),
    {
        if imb::validate(tracking.as_bytes(), routing.as_bytes()).is_err() {
            return Err(Error::InvalidData);
        }
        let mut segments: Vec<Segment> = Vec::new();
        segments.push(Segment::numeric(copy_bytes(tracking.as_bytes())));
        segments.push(Segment::numeric(copy_bytes(routing.as_bytes())));
        Ok(symbol_of(PostalVariant::IntelligentMail, segments))
    }

    /// Render a postal symbol: its bars, recomputed check characters included, in
    /// the 3-row grid.
    pub fn encode(&self, symbol: &Symbol) -> (r: Result<Encoding, Error>)
        ensures
            match postal_bars_spec(*symbol) {
                Err(e) => r == Err::<Encoding, Error>(e),
                Ok(bars) => bars.len() > 0x1000_0000 && r == Err::<Encoding, Error>(Error::Capacity) || (
                r matches Ok(Encoding::Matrix(m)) && m.wf() && m.height == 3 && m.width == 2 * bars.len() - 1
                    && forall|x: int, y: int| 0 <= x < m.width && 0 <= y < 3 ==> #[trigger] m.at(x, y)
                    == postal_module(bars, x, y)),
            },
    {
        let variant = match PostalVariant::from_symbology(symbol.symbology) {
            Some(v) => v,
            None => {
                return Err(Error::Unsupported);
            },
        };
        if let SymbolMeta::Postal(meta) = &symbol.meta {
            if meta.variant != variant {
                return Err(Error::InvalidParameter);
            }
        }
        let bars = match variant {
            PostalVariant::Postnet | PostalVariant::Planet => {
                let d = match find_data(&symbol.segments, false) {
                    Some(d) => d,
                    None => {
                        return Err(Error::InvalidData);
                    },
                };
                let planet = match variant {
                    PostalVariant::Planet => true,
                    _ => false,
                };
                match postnet::encode(planet, d.as_slice()) {
                    Ok(b) => b,
                    Err(e) => {
                        return Err(e);
                    },
                }
            },
            PostalVariant::IntelligentMail => {
                let (t, rt) = match imb_fields(&symbol.segments) {
                    Some(f) => f,
                    None => {
                        return Err(Error::InvalidData);
                    },
                };
                match imb::encode(t.as_slice(), rt.as_slice()) {
                    Ok(b) => b,
                    Err(e) => {
                        return Err(e);
                    },
                }
            },
            _ => {
                let d = match find_data(&symbol.segments, true) {
                    Some(d) => d,
                    None => {
                        return Err(Error::InvalidData);
                    },
                };
                let kix = match variant {
                    PostalVariant::KixCode => true,
                    _ => false,
                };
                match rm4scc::encode(kix, d.as_slice()) {
                    Ok(b) => b,
                    Err(e) => {
                        return Err(e);
                    },
                }
            },
        };
        if bars.len() > 0x1000_0000 {
            return Err(Error::Capacity);
        }
        proof {
            assert(bars@.len() > 0) by {
                assert(bars@ == postal_bars_spec(*symbol).unwrap());
                lemma_postal_bars_nonempty(*symbol);
            }
        }
        Ok(Encoding::Matrix(bars_to_matrix(bars.as_slice())))
    }
}

/// The bars of an encodable symbol are never empty.
proof fn lemma_postal_bars_nonempty(sym: Symbol)
    requires
        postal_bars_spec(sym) is Ok,
    ensures
        postal_bars_spec(sym).unwrap().len() > 0,
{
    let v = symbology_variant(sym.symbology).unwrap();
    match v {
        PostalVariant::Postnet | PostalVariant::Planet => {},
        PostalVariant::IntelligentMail => {},
        _ => {
            let d = first_data(sym.segments@, true).unwrap();
            if v is KixCode {
                rm4scc::lemma_chars_bars(rm4scc::indices_of(d));
            }
        },
    }
}

/// Postal decoder.
#[derive(Debug, Default, Clone, Copy)]
pub struct PostalDecoder;

impl PostalDecoder {
    /// A new decoder.
    pub fn new() -> (d: Self) {
        PostalDecoder
    }

    /// Decode a postal grid: the bars it holds, then the family member their count
    /// and states name.
    pub fn decode(&self, encoding: &Encoding) -> (r: Result<Symbol, Error>)
        requires
            encoding matches Encoding::Matrix(m) ==> m.wf(),
        ensures
            encoding is Linear ==> r == Err::<Symbol, Error>(Error::Unsupported),
            encoding matches Encoding::Matrix(m) ==> {
                &&& !postal_grid_ok(*m) ==> r == Err::<Symbol, Error>(Error::Undecodable)
                &&& postal_grid_ok(*m) ==> match postal_decode_spec(grid_bars(*m)) {
                    Ok((v, segs)) => r matches Ok(sym) && postal_symbol(sym, v, segs),
                    Err(e) => r == Err::<Symbol, Error>(e),
                }
            },
    {
        let matrix = match encoding {
            Encoding::Matrix(m) => m,
            Encoding::Linear(_) => {
                return Err(Error::Unsupported);
            },
        };
        let bars = match matrix_to_bars(matrix) {
            Ok(b) => b,
            Err(e) => {
                return Err(e);
            },
        };
        proof {
            assert(bars@ =~= grid_bars(*matrix));
        }
        let n = bars.len();
        let mut four = false;
        let mut i: usize = 0;
        while i < n
            invariant
                n == bars@.len(),
                i <= n,
                four == exists|k: int| 0 <= k < i && desc(#[trigger] bars@[k]),
            decreases n - i,
        {
            if bars[i].has_descender() {
                four = true;
            }
            i = i + 1;
        }
        if n == 65 {
            return match imb::decode(bars.as_slice()) {
                Ok((t, rt)) => {
                    let mut segments: Vec<Segment> = Vec::new();
                    segments.push(Segment::numeric(t));
                    segments.push(Segment::numeric(rt));
                    Ok(symbol_of(PostalVariant::IntelligentMail, segments))
                },
                Err(e) => Err(e),
            };
        }
        if !four && n >= 7 && (n - 2) % 5 == 0 {
            return match postnet::decode(bars.as_slice()) {
                Ok((v, d)) => {
                    let mut segments: Vec<Segment> = Vec::new();
                    segments.push(Segment::numeric(d));
                    Ok(symbol_of(v, segments))
                },
                Err(e) => Err(e),
            };
        }
        if four && n % 4 == 2 && n >= 6 {
            return match rm4scc::decode_rm4scc(bars.as_slice()) {
                Ok((v, d)) => {
                    let mut segments: Vec<Segment> = Vec::new();
                    segments.push(Segment::alphanumeric(d));
                    Ok(symbol_of(v, segments))
                },
                Err(e) => Err(e),
            };
        }
        if four && n % 4 == 0 && n >= 4 {
            return match rm4scc::decode_kix(bars.as_slice()) {
                Ok((v, d)) => {
                    let mut segments: Vec<Segment> = Vec::new();
                    segments.push(Segment::alphanumeric(d));
                    Ok(symbol_of(v, segments))
                },
                Err(e) => Err(e),
            };
        }
        Err(Error::Undecodable)
    }
}


/// The bar sequence read from the grid of `bars` is `bars`.
pub proof fn lemma_grid_bars(bars: Seq<BarState>, m: BitMatrix)
    requires
        bars.len() > 0,
        m.wf(),
        m.width == 2 * bars.len() - 1,
        m.height == 3,
        forall|x: int, y: int| 0 <= x < m.width && 0 <= y < 3 ==> #[trigger] m.at(x, y) == postal_module(bars, x, y),
    ensures
        postal_grid_ok(m),
        grid_bars(m) == bars,
{
    lemma_bars_round_trip(bars, m);
    assert(grid_bars(m) =~= bars);
}

/// Decoding POSTNET or PLANET bars gives the variant and the data digits back.
#[verifier::spinoff_prover]
#[verifier::rlimit(40)]
pub proof fn lemma_postnet_decodes(d: Seq<u8>, planet: bool)
    requires
        postnet::digits_ok(d),
    ensures
        postal_decode_spec(postnet::postnet_bars(d, planet)) == Ok::<(PostalVariant, Seq<(Mode, Seq<u8>)>), Error>(
            (if planet { PostalVariant::Planet } else { PostalVariant::Postnet }, seq![(Mode::Numeric, d)]),
        ),
{
    let bars = postnet::postnet_bars(d, planet);
    let values = postnet::values_of(d);
    let vs = values.push(postnet::check_spec(values));
    assert forall|k: int| 0 <= k < vs.len() implies 0 <= #[trigger] vs[k] < 10 by {
        if k < values.len() {
            assert(48 <= d[k] <= 57);
        }
    }
    postnet::lemma_groups_digits(vs, planet);
    let gb = postnet::groups_bars(vs, planet);
    assert(!four_state(bars)) by {
        assert forall|i: int| 0 <= i < bars.len() implies !desc(#[trigger] bars[i]) by {
            if 1 <= i < bars.len() - 1 {
                assert(bars[i] == gb[i - 1]);
            }
        }
    }
    postnet::lemma_postnet_round_trip(d, planet);
}

/// Decoding RM4SCC bars gives the data back.
#[verifier::spinoff_prover]
#[verifier::rlimit(40)]
pub proof fn lemma_rm4scc_decodes(d: Seq<u8>)
    requires
        rm4scc::data_ok(d),
    ensures
        postal_decode_spec(rm4scc::rm4scc_bars(d, false)) == Ok::<(PostalVariant, Seq<(Mode, Seq<u8>)>), Error>(
            (PostalVariant::RoyalMail, seq![(Mode::Alphanumeric, d)]),
        ),
{
    let idx = rm4scc::indices_of(d);
    let ext = idx.push(rm4scc::checksum_spec(idx));
    rm4scc::lemma_chars_bars(ext);
    let bars = rm4scc::rm4scc_bars(d, false);
    assert(desc(bars[bars.len() - 1]));
    assert(four_state(bars));
    rm4scc::lemma_rm4scc_round_trip(d);
}

/// Decoding KIX bars gives the data back.
#[verifier::spinoff_prover]
#[verifier::rlimit(40)]
pub proof fn lemma_kix_decodes(d: Seq<u8>)
    requires
        rm4scc::data_ok(d),
    ensures
        postal_decode_spec(rm4scc::rm4scc_bars(d, true)) == Ok::<(PostalVariant, Seq<(Mode, Seq<u8>)>), Error>(
            (PostalVariant::KixCode, seq![(Mode::Alphanumeric, d)]),
        ),
{
    let idx = rm4scc::indices_of(d);
    rm4scc::lemma_indices(d);
    rm4scc::lemma_chars_bars(idx);
    let bars = rm4scc::rm4scc_bars(d, true);
    let c = idx[0];
    assert(0 <= c < 36);
    let b = c % 6 + 1;
    assert(rm4scc::char_bars(c)[0] == bars[0] && rm4scc::char_bars(c)[1] == bars[1]
        && rm4scc::char_bars(c)[2] == bars[2] && rm4scc::char_bars(c)[3] == bars[3]) by {
        assert(bars[4 * 0int + 0] == rm4scc::char_bars(idx[0])[0]);
        assert(bars[4 * 0int + 1] == rm4scc::char_bars(idx[0])[1]);
        assert(bars[4 * 0int + 2] == rm4scc::char_bars(idx[0])[2]);
        assert(bars[4 * 0int + 3] == rm4scc::char_bars(idx[0])[3]);
    }
    assert(desc(bars[0]) || desc(bars[1]) || desc(bars[2]) || desc(bars[3]));
    assert(four_state(bars));
    rm4scc::lemma_kix_round_trip(d);
}
} // verus!
