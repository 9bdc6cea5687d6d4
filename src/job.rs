use vstd::prelude::*;
use crate::buffer::{at, PixelBuffer};
use crate::pixel::Criterion;
use crate::sort::{
    basic_sort, checker_sort, grid_covers, lemma_grid_determines, lemma_stable_sort_unique, grid_tile, is_stable_sort, CHECKER_COLS, CHECKER_ROWS,
};

verus! {

/// A sort strategy: how the pixels of an image are grouped before each group
/// is sorted by key.
#[derive(Clone, Copy, PartialEq, Eq, Structural, Debug)]
pub enum Strategy {
    /// One group: the whole image.
    Basic,
    /// One group per tile of the default grid.
    Checker,
}

/// `r` is the whole-image sort of `buf` by `crit`.
pub open spec fn is_basic_sort(buf: PixelBuffer, crit: Criterion, r: PixelBuffer) -> bool {
    &&& r.wf()
    &&& r.width == buf.width
    &&& r.height == buf.height
    &&& is_stable_sort(r.pixels@, buf.pixels@, crit)
}

/// `r` is the tiled sort of `buf` by `crit` on the default grid.
pub open spec fn is_checker_sort(buf: PixelBuffer, crit: Criterion, r: PixelBuffer) -> bool {
    let (w, h, rows, cols) = (
        buf.width as int,
        buf.height as int,
        CHECKER_ROWS as int,
        CHECKER_COLS as int,
    );
    &&& r.wf()
    &&& r.width == buf.width
    &&& r.height == buf.height
    &&& forall|tx: int, ty: int|
        0 <= tx < cols && 0 <= ty < rows ==> is_stable_sort(
            #[trigger] grid_tile(r.pixels@, w, h, rows, cols, tx, ty),
            grid_tile(buf.pixels@, w, h, rows, cols, tx, ty),
            crit,
        )
    &&& forall|x: int, y: int|
        0 <= x < w && 0 <= y < h && !grid_covers(w, h, rows, cols, x, y) ==> #[trigger] at(
            r.pixels@,
            w,
            x,
            y,
        ) == at(buf.pixels@, w, x, y)
}

/// The whole-image sort is deterministic: any two results of it on the same
/// buffer and criterion hold the same pixels in the same order.
pub proof fn lemma_basic_sort_deterministic(
    buf: PixelBuffer,
    crit: Criterion,
    r1: PixelBuffer,
    r2: PixelBuffer,
)
    requires
        is_basic_sort(buf, crit, r1),
        is_basic_sort(buf, crit, r2),
    ensures
        r1.width == r2.width,
        r1.height == r2.height,
        r1.pixels@ == r2.pixels@,
{
    lemma_stable_sort_unique(r1.pixels@, r2.pixels@, buf.pixels@, crit);
}

/// The tiled sort is deterministic: any two results of it on the same buffer
/// and criterion hold the same pixels in the same order.
pub proof fn lemma_checker_sort_deterministic(
    buf: PixelBuffer,
    crit: Criterion,
    r1: PixelBuffer,
    r2: PixelBuffer,
)
    requires
        is_checker_sort(buf, crit, r1),
        is_checker_sort(buf, crit, r2),
    ensures
        r1.width == r2.width,
        r1.height == r2.height,
        r1.pixels@ == r2.pixels@,
{
    let (w, h, rows, cols) = (
        buf.width as int,
        buf.height as int,
        CHECKER_ROWS as int,
        CHECKER_COLS as int,
    );
    assert forall|tx: int, ty: int| 0 <= tx < cols && 0 <= ty < rows implies #[trigger] grid_tile(
        r1.pixels@,
        w,
        h,
        rows,
        cols,
        tx,
        ty,
    ) == grid_tile(r2.pixels@, w, h, rows, cols, tx, ty) by {
        lemma_stable_sort_unique(
            grid_tile(r1.pixels@, w, h, rows, cols, tx, ty),
            grid_tile(r2.pixels@, w, h, rows, cols, tx, ty),
            grid_tile(buf.pixels@, w, h, rows, cols, tx, ty),
            crit,
        );
    }
    lemma_grid_determines(r1.pixels@, r2.pixels@, w, h, rows, cols);
}

impl Strategy {
    pub open spec fn all_spec() -> Seq<Strategy> {
        seq![Strategy::Basic, Strategy::Checker]
    }

    /// Every strategy, in the order in which a batch run visits them.
    pub fn all() -> (v: Vec<Strategy>)
        ensures
            v@ == Self::all_spec(),
    {
        let v = vec![Strategy::Basic, Strategy::Checker];
        assert(v@ =~= Self::all_spec());
        v
    }

    /// The name under which output files of this strategy are written.
    pub open spec fn name_spec(self) -> Seq<char> {
        match self {
            Strategy::Basic => seq!['B', 'a', 's', 'i', 'c'],
            Strategy::Checker => seq!['C', 'h', 'e', 'c', 'k', 'e', 'r'],
        }
    }

    pub fn name(&self) -> (s: &'static str)
        ensures
            s@ == self.name_spec(),
    {
        match self {
            Strategy::Basic => {
                proof {
                    reveal_strlit("Basic");
                }
                "Basic"
            },
            Strategy::Checker => {
                proof {
                    reveal_strlit("Checker");
                }
                "Checker"
            },
        }
    }

    /// Runs this strategy over `buf`, ranking pixels by `crit`.
    pub fn apply(&self, buf: &PixelBuffer, crit: Criterion) -> (r: PixelBuffer)
        requires
            buf.wf(),
        ensures
            *self == Strategy::Basic ==> is_basic_sort(*buf, crit, r),
            *self == Strategy::Checker ==> is_checker_sort(*buf, crit, r),
    {
        match self {
            Strategy::Basic => basic_sort(buf, crit),
            Strategy::Checker => checker_sort(buf, crit),
        }
    }
}

/// The name of the file that holds the output of strategy `s` with
/// criterion `c`: `{strategy}-{criterion}.png`.
pub open spec fn output_name_spec(s: Strategy, c: Criterion) -> Seq<char> {
    s.name_spec() + seq!['-'] + c.name_spec() + seq!['.', 'p', 'n', 'g']
}

pub fn output_file_name(s: Strategy, c: Criterion) -> (r: String)
    ensures
        r@ == output_name_spec(s, c),
{
    let mut r = String::from_str(s.name());
    r.append("-");
    r.append(c.name());
    r.append(".png");
    proof {
        reveal_strlit("-");
        reveal_strlit(".png");
        assert(r@ =~= output_name_spec(s, c));
    }
    r
}

/// The `i`-th combination that a job visits: strategies in the outer order,
/// criteria in the inner.
pub open spec fn combination_spec(i: int) -> (Strategy, Criterion) {
    (Strategy::all_spec()[i / 7], Criterion::all_spec()[i % 7])
}

/// Every (strategy, criterion) pair, each once.
pub fn combinations() -> (v: Vec<(Strategy, Criterion)>)
    ensures
        v@.len() == 14,
        forall|i: int| 0 <= i < 14 ==> #[trigger] v@[i] == combination_spec(i),
{
    let strategies = Strategy::all();
    let criteria = Criterion::all();
    let mut v: Vec<(Strategy, Criterion)> = Vec::new();
    let mut i: usize = 0;
    while i < strategies.len()
        invariant
            strategies@ == Strategy::all_spec(),
            criteria@ == Criterion::all_spec(),
            i <= 2,
            v@.len() == 7 * i,
            forall|k: int| 0 <= k < 7 * i ==> #[trigger] v@[k] == combination_spec(k),
        decreases 2 - i,
    {
        let mut j: usize = 0;
        while j < criteria.len()
            invariant
                strategies@ == Strategy::all_spec(),
                criteria@ == Criterion::all_spec(),
                i < 2,
                j <= 7,
                v@.len() == 7 * i + j,
                forall|k: int| 0 <= k < 7 * i + j ==> #[trigger] v@[k] == combination_spec(k),
            decreases 7 - j,
        {
            v.push((strategies[i], criteria[j]));
            proof {
                let k = 7 * i + j;
                assert(k / 7 == i && k % 7 == j);
            }
            j += 1;
        }
        i += 1;
    }
    v
}

/// `plan` lists, in increasing order, exactly the positions `i` at which
/// `exists[i]` is false: the outputs that are still to be written.
pub open spec fn is_plan(exists: Seq<bool>, plan: Seq<usize>) -> bool {
    &&& forall|j: int| 0 <= j < plan.len() ==> #[trigger] plan[j] < exists.len() && !exists[plan[j] as int]
    &&& forall|j: int, k: int| 0 <= j < k < plan.len() ==> #[trigger] plan[j] < #[trigger] plan[k]
    &&& forall|i: int| 0 <= i < exists.len() && !#[trigger] exists[i] ==> plan.contains(i as usize)
}

/// The outputs of a job that are to be written: those whose file does not
/// exist yet. Existing outputs are skipped, which makes a rerun resume.
pub fn plan_writes(exists: &Vec<bool>) -> (plan: Vec<usize>)
    ensures
        is_plan(exists@, plan@),
{
    let mut plan: Vec<usize> = Vec::new();
    let mut i: usize = 0;
    while i < exists.len()
        invariant
            i <= exists.len(),
            forall|j: int| 0 <= j < plan.len() ==> #[trigger] plan@[j] < i && !exists@[plan@[j] as int],
            forall|j: int, k: int| 0 <= j < k < plan.len() ==> #[trigger] plan@[j] < #[trigger] plan@[k],
            forall|m: int| 0 <= m < i && !#[trigger] exists@[m] ==> plan@.contains(m as usize),
        decreases exists.len() - i,
    {
        if !exists[i] {
            let ghost prev = plan@;
            plan.push(i);
            proof {
                assert forall|m: int| 0 <= m < i + 1 && !#[trigger] exists@[m] implies plan@.contains(m as usize) by {
                    if m < i {
                        let w = choose|w: int| 0 <= w < prev.len() && prev[w] == m as usize;
                        assert(plan@[w] == m as usize);
                    } else {
                        assert(plan@[plan@.len() - 1] == m as usize);
                    }
                }
            }
        }
        i += 1;
    }
    plan
}

/// A rerun writes nothing: once every output that a job planned has been
/// written, planning that job again finds nothing left to write.
pub proof fn lemma_rerun_writes_nothing(exists: Seq<bool>, plan: Seq<usize>, plan2: Seq<usize>)
    requires
        is_plan(exists, plan),
        is_plan(Seq::new(exists.len(), |i: int| exists[i] || plan.contains(i as usize)), plan2),
    ensures
        plan2.len() == 0,
{
    let after = Seq::new(exists.len(), |i: int| exists[i] || plan.contains(i as usize));
    if plan2.len() > 0 {
        let i = plan2[0] as int;
        assert(!after[i]);
        if !exists[i] {
            assert(plan.contains(i as usize));
        }
    }
}

/// The bytes written over a whole run.
pub struct RunTotals {
    pub bytes: u128,
}

impl RunTotals {
    pub fn new() -> (t: RunTotals)
        ensures
            t.bytes == 0,
    {
        RunTotals { bytes: 0 }
    }

    /// Adds the size of one written output; the total stops at `u128::MAX`.
    pub fn record(&mut self, size: u128)
        ensures
            final(self).bytes == if old(self).bytes + size <= u128::MAX {
                old(self).bytes + size
            } else {
                u128::MAX as int
            },
    {
        self.bytes = self.bytes.saturating_add(size);
    }
}

} // verus!
