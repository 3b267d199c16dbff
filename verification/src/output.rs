use vstd::prelude::*;

verus! {

/// A 1D symbol: one boolean per narrow module, `true` for a bar.
#[derive(Debug, Clone, PartialEq, Eq)]
pub struct LinearPattern {
    /// The modules, left to right.
    pub modules: Vec<bool>,
    /// Quiet zone, in modules, on each side.
    pub quiet_zone: usize,
}

/// `width` copies of `bar`.
pub open spec fn run_of(bar: bool, width: nat) -> Seq<bool> {
    Seq::new(width, |_i: int| bar)
}

impl LinearPattern {
    /// An empty pattern with no quiet zone.
    pub fn new() -> (p: LinearPattern)
        ensures
            p.modules@.len() == 0,
            p.quiet_zone == 0,
    {
        LinearPattern { modules: Vec::new(), quiet_zone: 0 }
    }

    /// Start a fresh symbol with the given quiet zone.
    pub fn begin(&mut self, quiet_zone: usize)
        ensures
            final(self).modules@.len() == 0,
            final(self).quiet_zone == quiet_zone,
    {
        self.modules = Vec::new();
        self.quiet_zone = quiet_zone;
    }

    /// Append `width` copies of `bar`.
    pub fn push_run(&mut self, bar: bool, width: usize)
        ensures
            final(self).modules@ == old(self).modules@ + run_of(bar, width as nat),
            final(self).quiet_zone == old(self).quiet_zone,
    {
        let mut i: usize = 0;
        while i < width
            invariant
                i <= width,
                self.modules@ == old(self).modules@ + run_of(bar, i as nat),
                self.quiet_zone == old(self).quiet_zone,
            decreases width - i,
        {
            self.modules.push(bar);
            i = i + 1;
            assert(self.modules@ =~= old(self).modules@ + run_of(bar, i as nat));
        }
    }
}

/// A 2D symbol: a row-major grid of modules, `true` for a dark module.
#[derive(Debug, Clone, PartialEq, Eq)]
pub struct BitMatrix {
    /// Columns.
    pub width: usize,
    /// Rows.
    pub height: usize,
    /// Quiet zone, in modules, on each side.
    pub quiet_zone: usize,
    /// `bits[y * width + x]`.
    pub bits: Vec<bool>,
}

impl BitMatrix {
    /// The grid has exactly `width * height` modules.
    pub open spec fn wf(&self) -> bool {
        self.bits@.len() == self.width * self.height
    }

    /// Module at column `x`, row `y`.
    pub open spec fn at(&self, x: int, y: int) -> bool {
        self.bits@[y * self.width + x]
    }

    /// An all-light `width × height` matrix.
    pub fn new(width: usize, height: usize, quiet_zone: usize) -> (m: BitMatrix)
        requires
            width * height <= usize::MAX,
        ensures
            m.wf(),
            m.width == width,
            m.height == height,
            m.quiet_zone == quiet_zone,
            forall|i: int| 0 <= i < m.bits@.len() ==> !m.bits@[i],
    {
        let n = width * height;
        let mut bits: Vec<bool> = Vec::new();
        let mut i: usize = 0;
        while i < n
            invariant
                i <= n,
                bits@.len() == i,
                forall|j: int| 0 <= j < i ==> !bits@[j],
            decreases n - i,
        {
            bits.push(false);
            i = i + 1;
        }
        BitMatrix { width, height, quiet_zone, bits }
    }

    /// Number of columns.
    pub fn width(&self) -> (w: usize)
        ensures
            w == self.width,
    {
        self.width
    }

    /// Number of rows.
    pub fn height(&self) -> (h: usize)
        ensures
            h == self.height,
    {
        self.height
    }

    /// Module at column `x`, row `y`.
    pub fn get(&self, x: usize, y: usize) -> (b: bool)
        requires
            self.wf(),
            x < self.width,
            y < self.height,
        ensures
            b == self.at(x as int, y as int),
    {
        proof {
            lemma_grid_index(x as int, y as int, self.width as int, self.height as int);
        }
        let _n = self.bits.len();
        self.bits[y * self.width + x]
    }

    /// Set the module at column `x`, row `y`.
    pub fn set(&mut self, x: usize, y: usize, v: bool)
        requires
            old(self).wf(),
            x < old(self).width,
            y < old(self).height,
        ensures
            final(self).wf(),
            final(self).width == old(self).width,
            final(self).height == old(self).height,
            final(self).quiet_zone == old(self).quiet_zone,
            final(self).bits@ == old(self).bits@.update(y * old(self).width + x, v),
    {
        proof {
            lemma_grid_index(x as int, y as int, self.width as int, self.height as int);
        }
        let _n = self.bits.len();
        let i = y * self.width + x;
        self.bits.set(i, v);
    }
}

/// A cell inside a `w × h` grid has a row-major index below `w * h`.
pub proof fn lemma_grid_index(x: int, y: int, w: int, h: int)
    requires
        0 <= x < w,
        0 <= y < h,
    ensures
        0 <= y * w + x < w * h,
{
    assert(0 <= y * w + x < w * h) by (nonlinear_arith)
        requires
            0 <= x < w,
            0 <= y < h,
    ;
}

/// What an encoder produces and a decoder consumes.
#[derive(Debug, Clone, PartialEq, Eq)]
pub enum Encoding {
    /// A 1D bar/space pattern.
    Linear(LinearPattern),
    /// A 2D module grid.
    Matrix(BitMatrix),
}

} // verus!

verus! {

/// The modules described by alternating run widths, the first run a bar.
pub open spec fn expand(runs: Seq<int>) -> Seq<bool>
    decreases runs.len(),
{
    if runs.len() == 0 {
        Seq::empty()
    } else {
        expand(runs.drop_last()) + run_of(((runs.len() - 1) as int) % 2 == 0, runs.last() as nat)
    }
}

/// Every run is at least one module wide.
pub open spec fn positive_runs(runs: Seq<int>) -> bool {
    forall|i: int| 0 <= i < runs.len() ==> #[trigger] runs[i] >= 1
}

/// Widths of a `u32` slice as integers.
pub open spec fn widths(s: Seq<u32>) -> Seq<int> {
    s.map_values(|v: u32| v as int)
}

/// Length of an expansion is the sum of its runs.
pub open spec fn run_sum(runs: Seq<int>) -> int
    decreases runs.len(),
{
    if runs.len() == 0 {
        0
    } else {
        run_sum(runs.drop_last()) + runs.last()
    }
}

/// An expansion has as many modules as its runs add up to.
pub proof fn lemma_expand_len(runs: Seq<int>)
    requires
        forall|i: int| 0 <= i < runs.len() ==> #[trigger] runs[i] >= 0,
    ensures
        expand(runs).len() == run_sum(runs),
    decreases runs.len(),
{
    if runs.len() > 0 {
        lemma_expand_len(runs.drop_last());
    }
}

/// Run-length encoding is unique: two positive run sequences with the same
/// expansion are equal.
pub proof fn lemma_expand_unique(a: Seq<int>, b: Seq<int>)
    requires
        positive_runs(a),
        positive_runs(b),
        expand(a) == expand(b),
    ensures
        a == b,
    decreases a.len() + b.len(),
{
    lemma_expand_len(a);
    lemma_expand_len(b);
    if a.len() == 0 || b.len() == 0 {
        if a.len() != 0 {
            assert(expand(a).len() >= 1) by { lemma_sum_pos(a); }
        }
        if b.len() != 0 {
            assert(expand(b).len() >= 1) by { lemma_sum_pos(b); }
        }
        assert(a =~= b);
    } else {
        // Compare the last runs.
        let ea = expand(a);
        let la = a.last();
        let lb = b.last();
        let ca = ((a.len() - 1) as int) % 2 == 0;
        let cb = ((b.len() - 1) as int) % 2 == 0;
        lemma_expand_len(a.drop_last());
        lemma_expand_len(b.drop_last());
        let n = ea.len();
        assert(ea[n - 1] == ca);
        assert(expand(b)[n - 1] == cb);
        assert(ca == cb);
        // The run before the last has the opposite colour (or does not exist).
        lemma_last_run(a);
        lemma_last_run(b);
        if la < lb {
            // position n-1-la is still colour cb in b, but not in a.
            assert(expand(b)[n - 1 - la] == cb);
            assert(ea[n - 1 - la] != ca);
            assert(false);
        } else if lb < la {
            assert(ea[n - 1 - lb] == ca);
            assert(expand(b)[n - 1 - lb] != cb);
            assert(false);
        }
        assert(ea.subrange(0, n - la) =~= expand(a.drop_last()));
        assert(expand(b).subrange(0, n - lb) =~= expand(b.drop_last()));
        lemma_expand_unique(a.drop_last(), b.drop_last());
        assert(a =~= b.drop_last().push(lb));
        assert(b =~= b.drop_last().push(lb));
    }
}

/// A positive run sequence expands to a non-empty pattern.
proof fn lemma_sum_pos(a: Seq<int>)
    requires
        positive_runs(a),
        a.len() > 0,
    ensures
        run_sum(a) >= 1,
    decreases a.len(),
{
    assert(a[a.len() - 1] >= 1);
    if a.len() > 1 {
        lemma_sum_pos(a.drop_last());
    } else {
        assert(a.drop_last().len() == 0);
        assert(run_sum(a.drop_last()) == 0);
    }
}

/// The last run occupies the final `last` modules in its colour, and the module
/// just before it (if any) has the other colour.
proof fn lemma_last_run(a: Seq<int>)
    requires
        positive_runs(a),
        a.len() > 0,
    ensures
        ({
            let e = expand(a);
            let l = a.last();
            let c = ((a.len() - 1) as int) % 2 == 0;
            &&& e.len() >= l
            &&& forall|i: int| e.len() - l <= i < e.len() ==> #[trigger] e[i] == c
            &&& e.len() > l ==> e[e.len() - l - 1] != c
            &&& e.subrange(0, e.len() - l) == expand(a.drop_last())
        }),
    decreases a.len(),
{
    lemma_expand_len(a);
    lemma_expand_len(a.drop_last());
    let e = expand(a);
    let d = a.drop_last();
    let l = a.last();
    assert(e.subrange(0, e.len() - l) =~= expand(d));
    if e.len() > l {
        assert(d.len() > 0);
        lemma_last_run(d);
        let ed = expand(d);
        assert(e[e.len() - l - 1] == ed[ed.len() - 1]);
        assert(ed[ed.len() - 1] == (((d.len() - 1) as int) % 2 == 0));
    }
}

} // verus!

verus! {

/// Widths of the alternating runs of `modules`, which start with a bar.
pub fn runs_of(modules: &[bool]) -> (runs: Vec<u32>)
    requires
        modules@.len() >= 1,
        modules@[0],
        modules@.len() <= u32::MAX,
    ensures
        positive_runs(widths(runs@)),
        expand(widths(runs@)) == modules@,
        runs@.len() >= 1,
{
    let mut runs: Vec<u32> = Vec::new();
    let mut cur = modules[0];
    let mut len: u32 = 0;
    let mut i: usize = 0;
    while i < modules.len()
        invariant
            i <= modules@.len(),
            modules@.len() <= u32::MAX,
            modules@[0],
            positive_runs(widths(runs@)),
            cur == (runs@.len() % 2 == 0),
            len <= i,
            i > 0 ==> len >= 1,
            i == 0 ==> len == 0 && runs@.len() == 0 && cur,
            expand(widths(runs@)) + run_of(cur, len as nat) == modules@.take(i as int),
        decreases modules@.len() - i,
    {
        let m = modules[i];
        let ghost before = widths(runs@);
        if m == cur {
            len = len + 1;
            proof {
                assert(run_of(cur, len as nat) =~= run_of(cur, (len - 1) as nat).push(cur));
                assert(modules@.take(i + 1) =~= modules@.take(i as int).push(m));
            }
        } else {
            runs.push(len);
            proof {
                assert(widths(runs@) =~= before.push(len as int));
                assert(widths(runs@).drop_last() =~= before);
                assert(expand(widths(runs@)) == expand(before) + run_of(cur, len as nat));
                assert forall|j: int| 0 <= j < widths(runs@).len() implies #[trigger] widths(runs@)[j] >= 1 by {
                    if j < before.len() {
                        assert(widths(runs@)[j] == before[j]);
                    }
                }
                assert(modules@.take(i + 1) =~= modules@.take(i as int).push(m));
                assert(run_of(m, 1) =~= seq![m]);
            }
            cur = m;
            len = 1;
        }
        i = i + 1;
    }
    let ghost before = widths(runs@);
    runs.push(len);
    proof {
        assert(widths(runs@) =~= before.push(len as int));
        assert(widths(runs@).drop_last() =~= before);
        assert forall|j: int| 0 <= j < widths(runs@).len() implies #[trigger] widths(runs@)[j] >= 1 by {
            if j < before.len() {
                assert(widths(runs@)[j] == before[j]);
            }
        }
        assert(modules@.take(modules@.len() as int) =~= modules@);
    }
    runs
}

} // verus!

verus! {

/// A pattern has at least as many modules as positive runs.
pub proof fn lemma_runs_le_len(runs: Seq<int>)
    requires
        positive_runs(runs),
    ensures
        runs.len() <= expand(runs).len(),
    decreases runs.len(),
{
    lemma_expand_len(runs);
    if runs.len() > 0 {
        assert(runs[runs.len() - 1] >= 1);
        lemma_runs_le_len(runs.drop_last());
        lemma_expand_len(runs.drop_last());
    }
}

} // verus!
