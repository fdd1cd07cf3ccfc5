use vstd::prelude::*;
use rand::rngs::StdRng;
use crate::random::draw_below;

verus! {

/// The probability 1, in the fixed-point unit that weights and draws use
/// (millionths).
pub const PROB_SCALE: u64 = 1_000_000;

/// How a content kind takes part in random generation.
#[derive(Clone, Copy, PartialEq, Eq, Structural, Debug)]
pub enum GenMethod {
    /// Never generated at random.
    Never,
    /// Generated where no weighted entry is drawn.
    Default,
    /// Generated with this weight, in millionths.
    Random(u32),
}

/// A cumulative-probability table: `probs` holds `(cumulative, id)` pairs in
/// insertion order; a draw past the last value falls to `default`.
#[derive(Clone, Debug)]
pub struct GenConfig {
    pub default: usize,
    pub probs: Vec<(u64, usize)>,
}

/// The weighted entries `(weight, id)` of `methods`, the id being the index.
pub open spec fn random_entries(methods: Seq<GenMethod>) -> Seq<(nat, nat)>
    decreases methods.len(),
{
    if methods.len() == 0 {
        Seq::empty()
    } else {
        let prev = random_entries(methods.drop_last());
        match methods.last() {
            GenMethod::Random(w) => prev.push((w as nat, (methods.len() - 1) as nat)),
            _ => prev,
        }
    }
}

/// The index of the last `Default` method, or 0 where there is none.
pub open spec fn default_of(methods: Seq<GenMethod>) -> nat
    decreases methods.len(),
{
    if methods.len() == 0 {
        0
    } else if methods.last() is Default {
        (methods.len() - 1) as nat
    } else {
        default_of(methods.drop_last())
    }
}

/// The sum of the first `n` weights.
pub open spec fn weight_sum(entries: Seq<(nat, nat)>, n: int) -> nat
    decreases n,
{
    if n <= 0 || n > entries.len() {
        0
    } else {
        weight_sum(entries, n - 1) + entries[n - 1].0
    }
}

/// A cumulative weight after normalisation: rescaled so that the total is
/// exactly 1 when the total exceeds 1, left as it is otherwise.
pub open spec fn normalized(cum: nat, total: nat) -> nat {
    if total > PROB_SCALE {
        cum * PROB_SCALE as nat / total
    } else {
        cum
    }
}

/// The id picked by `draw`: that of the first entry from `k` on whose
/// cumulative value is at least `draw`, or `default` if there is none.
pub open spec fn sample_from(probs: Seq<(u64, usize)>, default: usize, draw: u64, k: int) -> usize
    decreases probs.len() - k,
{
    if k < 0 || k >= probs.len() {
        default
    } else if probs[k].0 >= draw {
        probs[k].1
    } else {
        sample_from(probs, default, draw, k + 1)
    }
}

/// The table built from `methods`, entry by entry.
pub open spec fn table_of(methods: Seq<GenMethod>, probs: Seq<(u64, usize)>) -> bool {
    let entries = random_entries(methods);
    let total = weight_sum(entries, entries.len() as int);
    &&& probs.len() == entries.len()
    &&& forall|k: int|
        0 <= k < probs.len() ==> #[trigger] probs[k].0 == normalized(weight_sum(entries, k + 1), total)
            && probs[k].1 == entries[k].1
}

proof fn lemma_weight_sum_grows(entries: Seq<(nat, nat)>, m: int, n: int)
    requires
        0 <= m <= n <= entries.len(),
    ensures
        weight_sum(entries, m) <= weight_sum(entries, n),
    decreases n - m,
{
    if m < n {
        lemma_weight_sum_grows(entries, m, n - 1);
    }
}

proof fn lemma_normalized_ordered(c1: nat, c2: nat, total: nat)
    requires
        c1 <= c2 <= total,
    ensures
        normalized(c1, total) <= normalized(c2, total),
        normalized(c2, total) <= PROB_SCALE,
        c2 == total && total > PROB_SCALE ==> normalized(c2, total) == PROB_SCALE,
{
    if total > PROB_SCALE {
        let s = PROB_SCALE as int;
        assert(c1 * s <= c2 * s) by (nonlinear_arith)
            requires c1 <= c2, s > 0;
        assert(c2 * s <= total * s) by (nonlinear_arith)
            requires c2 <= total, s > 0;
        vstd::arithmetic::div_mod::lemma_div_is_ordered(c1 * s, c2 * s, total as int);
        vstd::arithmetic::div_mod::lemma_div_is_ordered(c2 * s, total * s, total as int);
        assert(total * s == s * total) by (nonlinear_arith);
        vstd::arithmetic::div_mod::lemma_div_multiples_vanish(s, total as int);
    }
}

proof fn lemma_random_entries_ids(methods: Seq<GenMethod>)
    ensures
        forall|k: int| 0 <= k < random_entries(methods).len() ==> #[trigger] random_entries(methods)[k].1 < methods.len(),
        random_entries(methods).len() <= methods.len(),
    decreases methods.len(),
{
    if methods.len() > 0 {
        lemma_random_entries_ids(methods.drop_last());
    }
}

/// A built table never exceeds probability 1, is non-decreasing, and ends at
/// exactly 1 when the weights sum past 1.
pub proof fn lemma_table_bounded(methods: Seq<GenMethod>, probs: Seq<(u64, usize)>)
    requires
        table_of(methods, probs),
    ensures
        forall|k: int| 0 <= k < probs.len() ==> #[trigger] probs[k].0 <= PROB_SCALE,
        forall|j: int, k: int| 0 <= j <= k < probs.len() ==> #[trigger] probs[j].0 <= #[trigger] probs[k].0,
        probs.len() > 0 && weight_sum(random_entries(methods), probs.len() as int) > PROB_SCALE
            ==> probs.last().0 == PROB_SCALE,
{
    let entries = random_entries(methods);
    let n = entries.len() as int;
    let total = weight_sum(entries, n);
    assert forall|k: int| 0 <= k < probs.len() implies #[trigger] probs[k].0 <= PROB_SCALE by {
        lemma_weight_sum_grows(entries, k + 1, n);
        lemma_normalized_ordered(weight_sum(entries, k + 1), total, total);
    }
    assert forall|j: int, k: int| 0 <= j <= k < probs.len() implies #[trigger] probs[j].0 <= #[trigger] probs[k].0 by {
        lemma_weight_sum_grows(entries, j + 1, k + 1);
        lemma_weight_sum_grows(entries, k + 1, n);
        lemma_normalized_ordered(weight_sum(entries, j + 1), weight_sum(entries, k + 1), total);
    }
    if probs.len() > 0 && total > PROB_SCALE {
        lemma_normalized_ordered(total, total, total);
    }
}

/// A draw of zero picks the first entry of any non-empty table.
pub proof fn lemma_zero_draw_picks_first(probs: Seq<(u64, usize)>, default: usize)
    requires
        probs.len() > 0,
    ensures
        sample_from(probs, default, 0, 0) == probs[0].1,
{
}

impl GenConfig {
    /// Builds the table from one generation method per content id: weights
    /// accumulate in order, and are rescaled to end at 1 if they sum past 1.
    pub fn from_gen_methods(methods: &Vec<GenMethod>) -> (r: GenConfig)
        ensures
            r.default == default_of(methods@),
            table_of(methods@, r.probs@),
    {
        let mut default: usize = 0;
        let mut raw: Vec<(u32, usize)> = Vec::new();
        let mut total: u128 = 0;
        let mut i: usize = 0;
        while i < methods.len()
            invariant
                0 <= i <= methods@.len(),
                default == default_of(methods@.take(i as int)),
                raw@.len() == random_entries(methods@.take(i as int)).len(),
                forall|k: int| 0 <= k < raw@.len() ==> (#[trigger] raw@[k]).0 as nat == random_entries(methods@.take(i as int))[k].0
                    && raw@[k].1 as nat == random_entries(methods@.take(i as int))[k].1,
                total == weight_sum(random_entries(methods@.take(i as int)), raw@.len() as int),
                total <= i * 0x1_0000_0000,
            decreases methods@.len() - i,
        {
            let ghost before = random_entries(methods@.take(i as int));
            proof {
                assert(methods@.take(i + 1).drop_last() =~= methods@.take(i as int));
                assert(methods@.take(i + 1).last() == methods@[i as int]);
            }
            match methods[i] {
                GenMethod::Never => {},
                GenMethod::Default => {
                    default = i;
                },
                GenMethod::Random(w) => {
                    let ghost after = before.push((w as nat, i as nat));
                    proof {
                        assert(weight_sum(after, after.len() as int) == weight_sum(after, before.len() as int) + w);
                        assert forall|n: int| 0 <= n <= before.len() implies weight_sum(after, n) == weight_sum(before, n) by {
                            lemma_weight_sum_prefix(before, after, n);
                        }
                    }
                    raw.push((w, i));
                    total = total + w as u128;
                },
            }
            proof {
                assert((i + 1) * 0x1_0000_0000 == i * 0x1_0000_0000 + 0x1_0000_0000) by (nonlinear_arith);
            }
            i = i + 1;
        }
        proof {
            assert(methods@.take(methods@.len() as int) =~= methods@);
        }
        let ghost entries = random_entries(methods@);
        let mut probs: Vec<(u64, usize)> = Vec::new();
        let mut cum: u128 = 0;
        let mut k: usize = 0;
        while k < raw.len()
            invariant
                0 <= k <= raw@.len(),
                raw@.len() == entries.len(),
                forall|j: int| 0 <= j < raw@.len() ==> (#[trigger] raw@[j]).0 as nat == entries[j].0 && raw@[j].1 as nat == entries[j].1,
                total == weight_sum(entries, entries.len() as int),
                total <= methods@.len() * 0x1_0000_0000,
                methods@.len() <= usize::MAX,
                cum == weight_sum(entries, k as int),
                probs@.len() == k,
                forall|j: int| 0 <= j < k ==> (#[trigger] probs@[j]).0 == normalized(weight_sum(entries, j + 1), total as nat)
                    && probs@[j].1 == entries[j].1,
            decreases raw@.len() - k,
        {
            let (w, id) = raw[k];
            proof {
                lemma_weight_sum_grows(entries, k + 1, entries.len() as int);
            }
            cum = cum + w as u128;
            proof {
                lemma_normalized_ordered(cum as nat, total as nat, total as nat);
                assert(total <= 0x1_0000_0000_0000_0000_0000_0000) by (nonlinear_arith)
                    requires total <= methods@.len() * 0x1_0000_0000, methods@.len() <= 0xffff_ffff_ffff_ffff;
                assert(cum * 1_000_000 <= 0x1_0000_0000_0000_0000_0000_0000 * 1_000_000) by (nonlinear_arith)
                    requires cum <= total, total <= 0x1_0000_0000_0000_0000_0000_0000;
            }
            let p: u64 = if total > PROB_SCALE as u128 {
                (cum * PROB_SCALE as u128 / total) as u64
            } else {
                cum as u64
            };
            probs.push((p, id));
            k = k + 1;
        }
        GenConfig { default, probs }
    }

    /// The id that `draw` picks: the first entry whose cumulative value is at
    /// least `draw`, or the default.
    pub fn sample(&self, draw: u64) -> (r: usize)
        ensures
            r == sample_from(self.probs@, self.default, draw, 0),
    {
        let mut k: usize = 0;
        while k < self.probs.len()
            invariant
                0 <= k <= self.probs@.len(),
                sample_from(self.probs@, self.default, draw, k as int) == sample_from(self.probs@, self.default, draw, 0),
            decreases self.probs@.len() - k,
        {
            if self.probs[k].0 >= draw {
                return self.probs[k].1;
            }
            k = k + 1;
        }
        self.default
    }

    /// Whether some draw in `1..=PROB_SCALE` picks `id`.
    pub open spec fn drawable(&self, id: usize) -> bool {
        exists|d: u64| 1 <= d <= PROB_SCALE && id == sample_from(self.probs@, self.default, d, 0)
    }

    /// Ids for a `rows` by `cols` grid, each picked by its own random draw
    /// in `1..=PROB_SCALE`.
    pub fn populate(&self, rows: usize, cols: usize, rng: &mut StdRng) -> (r: Vec<Vec<usize>>)
        ensures
            r@.len() == rows,
            forall|y: int| 0 <= y < rows ==> (#[trigger] r@[y])@.len() == cols,
            forall|y: int, x: int| 0 <= y < rows && 0 <= x < cols ==> self.drawable(#[trigger] r@[y]@[x]),
    {
        let mut grid: Vec<Vec<usize>> = Vec::new();
        let mut y: usize = 0;
        while y < rows
            invariant
                0 <= y <= rows,
                grid@.len() == y,
                forall|j: int| 0 <= j < y ==> (#[trigger] grid@[j])@.len() == cols,
                forall|j: int, x: int| 0 <= j < y && 0 <= x < cols ==> self.drawable(#[trigger] grid@[j]@[x]),
            decreases rows - y,
        {
            let mut row: Vec<usize> = Vec::new();
            let mut x: usize = 0;
            while x < cols
                invariant
                    0 <= x <= cols,
                    row@.len() == x,
                    forall|i: int| 0 <= i < x ==> self.drawable(#[trigger] row@[i]),
                decreases cols - x,
            {
                let draw = draw_below(rng, PROB_SCALE) + 1;
                let id = self.sample(draw);
                proof {
                    assert(self.drawable(id));
                }
                row.push(id);
                x = x + 1;
            }
            let ghost old_grid = grid@;
            grid.push(row);
            proof {
                assert forall|j: int, x: int| 0 <= j < y + 1 && 0 <= x < cols implies self.drawable(#[trigger] grid@[j]@[x]) by {
                    if j < y {
                        assert(grid@[j] == old_grid[j]);
                    }
                }
            }
            y = y + 1;
        }
        grid
    }
}

proof fn lemma_weight_sum_prefix(before: Seq<(nat, nat)>, after: Seq<(nat, nat)>, n: int)
    requires
        after.len() == before.len() + 1,
        forall|k: int| 0 <= k < before.len() ==> after[k] == before[k],
        0 <= n <= before.len(),
    ensures
        weight_sum(after, n) == weight_sum(before, n),
    decreases n,
{
    if n > 0 {
        lemma_weight_sum_prefix(before, after, n - 1);
    }
}

} // verus!
