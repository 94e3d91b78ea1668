//! The distance store: a symmetric, zero-diagonal matrix of pairwise name
//! distances over `n` items, holding only the upper triangle. Row `i` keeps
//! the distances from item `i` to every item `j > i`, so the cell for an
//! unordered pair `(a, b)` with `a < b` is `rows[a][b - a - 1]`.

use crate::distance::{
    dist_spec, distance, lemma_dist_bounds, lemma_dist_self_zero, lemma_dist_symmetric, DIST_SCALE,
};
use crate::history::{history_contains, History};
use rand::Rng;
use vstd::arithmetic::mul::{lemma_mul_inequality, lemma_mul_left_inequality};
use vstd::prelude::*;

verus! {

/// The views of a list of names, one character sequence per name.
pub open spec fn name_views(words: Seq<String>) -> Seq<Seq<char>> {
    words.map_values(|w: String| w@)
}

/// The rows form a proper upper triangle: with `n` rows, row `i` has one
/// entry for each `j` in `i+1 .. n`.
pub open spec fn triangle_shape(rows: Seq<Seq<u64>>) -> bool {
    forall|i: int| 0 <= i < rows.len() ==> #[trigger] rows[i].len() == rows.len() - i - 1
}

/// Every stored entry is a fixed-point distance, at most `DIST_SCALE`.
pub open spec fn entries_bounded(rows: Seq<Seq<u64>>) -> bool {
    forall|i: int, k: int|
        0 <= i < rows.len() && 0 <= k < rows[i].len() ==> #[trigger] rows[i][k] <= DIST_SCALE
}

/// The symmetric lookup over the triangle: `0` on the diagonal, and the
/// upper-triangle cell of the unordered pair elsewhere.
pub open spec fn stored_distance(rows: Seq<Seq<u64>>, a: int, b: int) -> int {
    if a == b {
        0
    } else if a < b {
        rows[a][b - a - 1] as int
    } else {
        rows[b][a - b - 1] as int
    }
}

/// The store is completely built for `names`: a proper triangle of the same
/// length, and every cell holds the distance of its pair of names.
pub open spec fn filled_for(rows: Seq<Seq<u64>>, names: Seq<Seq<char>>) -> bool {
    &&& rows.len() == names.len()
    &&& triangle_shape(rows)
    &&& forall|i: int, k: int|
        0 <= i < rows.len() && 0 <= k < rows[i].len() ==> #[trigger] rows[i][k] == dist_spec(
            names[i],
            names[i + 1 + k],
        )
}

pub struct LevenshteinGraph {
    distances: Vec<Vec<u64>>,
}

impl View for LevenshteinGraph {
    type V = Seq<Seq<u64>>;

    closed spec fn view(&self) -> Seq<Seq<u64>> {
        self.distances@.map_values(|row: Vec<u64>| row@)
    }
}

impl LevenshteinGraph {
    /// An empty store, with nothing allocated and nothing filled.
    pub fn new() -> (g: LevenshteinGraph)
        ensures
            g@.len() == 0,
    {
        LevenshteinGraph { distances: Vec::new() }
    }

    /// The number of items the store currently covers.
    pub fn len(&self) -> (n: usize)
        ensures
            n == self@.len(),
    {
        self.distances.len()
    }

    /// Allocates `n` empty rows, ready to receive the triangle.
    pub fn prepare(&mut self, n: usize)
        requires
            old(self)@.len() == 0,
        ensures
            final(self)@.len() == n,
            forall|i: int| 0 <= i < n ==> #[trigger] final(self)@[i].len() == 0,
    {
        let mut i: usize = 0;
        while i < n
            invariant
                i <= n,
                self@.len() == i,
                forall|j: int| 0 <= j < i ==> #[trigger] self@[j].len() == 0,
            decreases n - i,
        {
            let ghost prev = self@;
            self.distances.push(Vec::new());
            proof {
                assert forall|j: int| 0 <= j < i + 1 implies #[trigger] self@[j].len() == 0 by {
                    assert(self@[j] == self.distances@[j]@);
                    if j < i {
                        assert(prev[j].len() == 0);
                    }
                }
            }
            i = i + 1;
        }
    }

    /// Installs a completed row at its index, leaving every other row as it
    /// was. Rows may arrive in any order.
    pub fn install_row(&mut self, i: usize, row: Vec<u64>)
        requires
            i < old(self)@.len(),
        ensures
            final(self)@ == old(self)@.update(i as int, row@),
    {
        self.distances[i] = row;
        proof {
            assert(final(self)@ =~= old(self)@.update(i as int, row@));
        }
    }

    /// The distance between the names at `a` and `b` in the item list.
    pub fn compute_distance(a: usize, b: usize, words: &[String]) -> (d: u64)
        requires
            a < words@.len(),
            b < words@.len(),
        ensures
            d == dist_spec(words@[a as int]@, words@[b as int]@),
            d <= DIST_SCALE,
    {
        distance(words[a].as_str(), words[b].as_str())
    }

    /// One row of the triangle: the distances from item `i` to every item
    /// `j > i`, in ascending order of `j`. This is the unit of work a
    /// builder may hand out to parallel workers; the result depends only on
    /// the item list.
    pub fn compute_row(words: &[String], i: usize) -> (row: Vec<u64>)
        requires
            i < words@.len(),
        ensures
            row@.len() == words@.len() - i - 1,
            forall|k: int|
                0 <= k < row@.len() ==> #[trigger] row@[k] == dist_spec(
                    words@[i as int]@,
                    words@[i + 1 + k]@,
                ),
    {
        let n = words.len();
        let mut row: Vec<u64> = Vec::new();
        let mut j: usize = i + 1;
        while j < n
            invariant
                i < j <= n,
                n == words@.len(),
                row@.len() == j - i - 1,
                forall|k: int|
                    0 <= k < row@.len() ==> #[trigger] row@[k] == dist_spec(
                        words@[i as int]@,
                        words@[i + 1 + k]@,
                    ),
            decreases n - j,
        {
            row.push(Self::compute_distance(i, j, words));
            j = j + 1;
        }
        row
    }

    /// Builds the whole store for the item list: every unordered pair is
    /// computed exactly once, row by row. The store must be empty; a second
    /// fill is the caller's contract violation.
    pub fn fill(&mut self, words: &[String])
        requires
            old(self)@.len() == 0,
            words@.len() >= 1,
        ensures
            filled_for(final(self)@, name_views(words@)),
    {
        let n = words.len();
        self.prepare(n);
        let mut i: usize = 0;
        while i < n
            invariant
                i <= n,
                n == words@.len(),
                self@.len() == n,
                forall|i2: int| 0 <= i2 < i ==> #[trigger] self@[i2].len() == n - i2 - 1,
                forall|i2: int, k: int|
                    0 <= i2 < i && 0 <= k < self@[i2].len() ==> #[trigger] self@[i2][k]
                        == dist_spec(words@[i2]@, words@[i2 + 1 + k]@),
            decreases n - i,
        {
            let row = Self::compute_row(words, i);
            self.install_row(i, row);
            i = i + 1;
        }
        proof {
            let names = name_views(words@);
            assert(forall|j: int| 0 <= j < names.len() ==> #[trigger] names[j] == words@[j]@);
            assert(filled_for(self@, names));
        }
    }

    /// A uniformly random index, used to seed the very first suggestion
    /// before any feedback exists.
    pub fn random(&self) -> (r: usize)
        requires
            self@.len() > 0,
        ensures
            r < self@.len(),
    {
        random_below(self.distances.len())
    }

    /// Looks a pair up: `0` on the diagonal, the triangle cell otherwise.
    /// Out-of-range indices, or a store whose rows are not a proper
    /// triangle, are the caller's contract violation.
    pub fn get_distance(&self, a: usize, b: usize) -> (d: u64)
        requires
            triangle_shape(self@),
            a < self@.len(),
            b < self@.len(),
        ensures
            d == stored_distance(self@, a as int, b as int),
    {
        if a == b {
            0
        } else if a < b {
            proof {
                assert(self.distances@[a as int]@ == self@[a as int]);
            }
            self.distances[a][b - a - 1]
        } else {
            proof {
                assert(self.distances@[b as int]@ == self@[b as int]);
            }
            self.distances[b][a - b - 1]
        }
    }

    /// The score of `idx` against the history: distances to liked items
    /// subtracted, distances to disliked items added. Lower is better.
    pub fn evaluate(&self, idx: usize, prev_choices: &History) -> (score: i128)
        requires
            triangle_shape(self@),
            entries_bounded(self@),
            idx < self@.len(),
            forall|k: int|
                0 <= k < prev_choices@.len() ==> (#[trigger] prev_choices@[k]).0 < self@.len(),
        ensures
            score == score_spec(self@, prev_choices@, idx as int),
            -(prev_choices@.len() * DIST_SCALE) <= score <= prev_choices@.len() * DIST_SCALE,
            prev_choices@.len() <= usize::MAX,
    {
        let n = prev_choices.len();
        let mut acc: i128 = 0;
        let mut k: usize = 0;
        while k < n
            invariant
                k <= n,
                n == prev_choices@.len(),
                triangle_shape(self@),
                entries_bounded(self@),
                idx < self@.len(),
                forall|l: int|
                    0 <= l < prev_choices@.len() ==> (#[trigger] prev_choices@[l]).0 < self@.len(),
                acc == score_spec(self@, prev_choices@.take(k as int), idx as int),
                -(k * DIST_SCALE) <= acc <= k * DIST_SCALE,
            decreases n - k,
        {
            let (j, liked) = prev_choices.entry(k);
            let d = self.get_distance(idx, j);
            proof {
                lemma_stored_in_range(self@, idx as int, j as int);
                assert(prev_choices@.take(k + 1).drop_last() =~= prev_choices@.take(k as int));
                assert(prev_choices@.take(k + 1).last() == prev_choices@[k as int]);
                lemma_mul_inequality(k as int, usize::MAX as int, DIST_SCALE as int);
                assert((k + 1) * DIST_SCALE == k * DIST_SCALE + DIST_SCALE) by (nonlinear_arith);
            }
            if liked {
                acc = acc - d as i128;
            } else {
                acc = acc + d as i128;
            }
            k = k + 1;
        }
        proof {
            assert(prev_choices@.take(n as int) =~= prev_choices@);
        }
        acc
    }

    /// The next item to show: the unvisited index with the lowest score,
    /// the lowest index winning ties; `None` exactly when the history
    /// already covers every index.
    pub fn recommend(&self, prev_choices: &History) -> (r: Option<usize>)
        requires
            triangle_shape(self@),
            entries_bounded(self@),
            forall|k: int|
                0 <= k < prev_choices@.len() ==> (#[trigger] prev_choices@[k]).0 < self@.len(),
        ensures
            match r {
                Some(i) => {
                    &&& i < self@.len()
                    &&& !history_contains(prev_choices@, i as int)
                    &&& forall|j: int|
                        0 <= j < self@.len() && !history_contains(prev_choices@, j) ==> prefers(
                            self@,
                            prev_choices@,
                            i as int,
                            j,
                        )
                },
                None => forall|j: int|
                    0 <= j < self@.len() ==> history_contains(prev_choices@, j),
            },
    {
        let n = self.distances.len();
        let mut found = false;
        let mut best: usize = 0;
        let mut best_score: i128 = 0;
        let mut j: usize = 0;
        while j < n
            invariant
                j <= n,
                n == self@.len(),
                triangle_shape(self@),
                entries_bounded(self@),
                forall|k: int|
                    0 <= k < prev_choices@.len() ==> (#[trigger] prev_choices@[k]).0 < self@.len(),
                !found ==> forall|l: int| 0 <= l < j ==> history_contains(prev_choices@, l),
                found ==> {
                    &&& best < j
                    &&& !history_contains(prev_choices@, best as int)
                    &&& best_score == score_spec(self@, prev_choices@, best as int)
                    &&& forall|l: int|
                        0 <= l < j && !history_contains(prev_choices@, l) ==> prefers(
                            self@,
                            prev_choices@,
                            best as int,
                            l,
                        )
                },
            decreases n - j,
        {
            if !prev_choices.contains(j) {
                let s = self.evaluate(j, prev_choices);
                if !found || s < best_score {
                    found = true;
                    best = j;
                    best_score = s;
                }
            }
            j = j + 1;
        }
        if found {
            Some(best)
        } else {
            None
        }
    }

    /// The next item to show when popularity weights are in play: the
    /// unvisited index with the lowest weighted score. Weights and the
    /// commonness factor are fixed-point fractions of `DIST_SCALE`.
    pub fn recommend_weighted(
        &self,
        prev_choices: &History,
        weightings: &Vec<u64>,
        commonness_factor: u64,
    ) -> (r: Option<usize>)
        requires
            triangle_shape(self@),
            entries_bounded(self@),
            forall|k: int|
                0 <= k < prev_choices@.len() ==> (#[trigger] prev_choices@[k]).0 < self@.len(),
            weightings@.len() == self@.len(),
            forall|k: int| 0 <= k < weightings@.len() ==> #[trigger] weightings@[k] <= DIST_SCALE,
            commonness_factor <= DIST_SCALE,
        ensures
            match r {
                Some(i) => {
                    &&& i < self@.len()
                    &&& !history_contains(prev_choices@, i as int)
                    &&& forall|j: int|
                        0 <= j < self@.len() && !history_contains(prev_choices@, j)
                            ==> prefers_weighted(
                            self@,
                            prev_choices@,
                            weightings@,
                            commonness_factor,
                            i as int,
                            j,
                        )
                },
                None => forall|j: int|
                    0 <= j < self@.len() ==> history_contains(prev_choices@, j),
            },
    {
        let n = self.distances.len();
        let mut found = false;
        let mut best: usize = 0;
        let mut best_score: i128 = 0;
        let mut j: usize = 0;
        while j < n
            invariant
                j <= n,
                n == self@.len(),
                triangle_shape(self@),
                entries_bounded(self@),
                forall|k: int|
                    0 <= k < prev_choices@.len() ==> (#[trigger] prev_choices@[k]).0 < self@.len(),
                weightings@.len() == self@.len(),
                forall|k: int|
                    0 <= k < weightings@.len() ==> #[trigger] weightings@[k] <= DIST_SCALE,
                commonness_factor <= DIST_SCALE,
                !found ==> forall|l: int| 0 <= l < j ==> history_contains(prev_choices@, l),
                found ==> {
                    &&& best < j
                    &&& !history_contains(prev_choices@, best as int)
                    &&& best_score == adjusted_score_spec(
                        self@,
                        prev_choices@,
                        weightings@,
                        commonness_factor,
                        best as int,
                    )
                    &&& forall|l: int|
                        0 <= l < j && !history_contains(prev_choices@, l) ==> prefers_weighted(
                            self@,
                            prev_choices@,
                            weightings@,
                            commonness_factor,
                            best as int,
                            l,
                        )
                },
            decreases n - j,
        {
            if !prev_choices.contains(j) {
                let s = self.adjusted(j, prev_choices, weightings, commonness_factor);
                if !found || s < best_score {
                    found = true;
                    best = j;
                    best_score = s;
                }
            }
            j = j + 1;
        }
        if found {
            Some(best)
        } else {
            None
        }
    }

    /// The weighted score of one item: the raw score rescaled, minus the
    /// commonness bonus.
    fn adjusted(
        &self,
        idx: usize,
        prev_choices: &History,
        weightings: &Vec<u64>,
        commonness_factor: u64,
    ) -> (a: i128)
        requires
            triangle_shape(self@),
            entries_bounded(self@),
            idx < self@.len(),
            forall|k: int|
                0 <= k < prev_choices@.len() ==> (#[trigger] prev_choices@[k]).0 < self@.len(),
            weightings@.len() == self@.len(),
            forall|k: int| 0 <= k < weightings@.len() ==> #[trigger] weightings@[k] <= DIST_SCALE,
            commonness_factor <= DIST_SCALE,
        ensures
            a == adjusted_score_spec(
                self@,
                prev_choices@,
                weightings@,
                commonness_factor,
                idx as int,
            ),
    {
        let s = self.evaluate(idx, prev_choices);
        let w = weightings[idx];
        proof {
            let hl = prev_choices@.len() as int;
            lemma_mul_inequality(hl, usize::MAX as int, DIST_SCALE as int);
            assert(-(usize::MAX as int * DIST_SCALE * DIST_SCALE) <= s * DIST_SCALE <= usize::MAX
                as int * DIST_SCALE * DIST_SCALE) by (nonlinear_arith)
                requires
                    -(usize::MAX as int * DIST_SCALE) <= s <= usize::MAX as int * DIST_SCALE,
            ;
            assert(0 <= commonness_factor * w <= DIST_SCALE * DIST_SCALE) by (nonlinear_arith)
                requires
                    0 <= commonness_factor <= DIST_SCALE,
                    0 <= w <= DIST_SCALE,
            ;
        }
        s * (DIST_SCALE as i128) - (commonness_factor as i128) * (w as i128)
    }

    /// The nearest unvisited neighbour of `from`, never `from` itself, the
    /// lowest index winning ties; `None` exactly when every other index is
    /// already covered by the history.
    pub fn closest(&self, from: usize, prev_choices: &History) -> (r: Option<usize>)
        requires
            triangle_shape(self@),
            from < self@.len(),
        ensures
            match r {
                Some(j) => {
                    &&& j < self@.len()
                    &&& j != from
                    &&& !history_contains(prev_choices@, j as int)
                    &&& forall|l: int|
                        0 <= l < self@.len() && l != from && !history_contains(prev_choices@, l)
                            ==> {
                            ||| stored_distance(self@, from as int, j as int) < stored_distance(
                                self@,
                                from as int,
                                l,
                            )
                            ||| (stored_distance(self@, from as int, j as int) == stored_distance(
                                self@,
                                from as int,
                                l,
                            ) && j <= l)
                        }
                },
                None => forall|l: int|
                    0 <= l < self@.len() ==> l == from || history_contains(prev_choices@, l),
            },
    {
        let n = self.distances.len();
        let mut found = false;
        let mut best: usize = 0;
        let mut best_dist: u64 = 0;
        let mut j: usize = 0;
        while j < n
            invariant
                j <= n,
                n == self@.len(),
                triangle_shape(self@),
                from < self@.len(),
                !found ==> forall|l: int|
                    0 <= l < j ==> l == from || history_contains(prev_choices@, l),
                found ==> {
                    &&& best < j
                    &&& best != from
                    &&& !history_contains(prev_choices@, best as int)
                    &&& best_dist == stored_distance(self@, from as int, best as int)
                    &&& forall|l: int|
                        0 <= l < j && l != from && !history_contains(prev_choices@, l) ==> {
                            ||| stored_distance(self@, from as int, best as int)
                                < stored_distance(self@, from as int, l)
                            ||| (stored_distance(self@, from as int, best as int)
                                == stored_distance(self@, from as int, l) && best <= l)
                        }
                },
            decreases n - j,
        {
            if j != from && !prev_choices.contains(j) {
                let d = self.get_distance(from, j);
                if !found || d < best_dist {
                    found = true;
                    best = j;
                    best_dist = d;
                }
            }
            j = j + 1;
        }
        if found {
            Some(best)
        } else {
            None
        }
    }
}

/// Relies on rand::thread_rng and rand::Rng::gen_range: a draw from
/// `0 .. n`. Nothing is assumed of which index comes back, only that it is
/// in range.
#[verifier::external_body]
fn random_below(n: usize) -> (r: usize)
    requires
        n > 0,
    ensures
        r < n,
{
    rand::thread_rng().gen_range(0..n)
}

/// The recommendation score of item `idx` against the feedback history:
/// the distance to each liked item is subtracted and the distance to each
/// disliked item is added, and the lowest score is recommended first.
pub open spec fn score_spec(rows: Seq<Seq<u64>>, h: Seq<(usize, bool)>, idx: int) -> int
    decreases h.len(),
{
    if h.len() == 0 {
        0
    } else {
        score_spec(rows, h.drop_last(), idx) + (if h.last().1 {
            -stored_distance(rows, idx, h.last().0 as int)
        } else {
            stored_distance(rows, idx, h.last().0 as int)
        })
    }
}

/// The recommendation score stated over the names themselves rather than
/// the stored matrix.
pub open spec fn name_score_spec(names: Seq<Seq<char>>, h: Seq<(usize, bool)>, idx: int) -> int
    decreases h.len(),
{
    if h.len() == 0 {
        0
    } else {
        name_score_spec(names, h.drop_last(), idx) + (if h.last().1 {
            -dist_spec(names[idx], names[h.last().0 as int])
        } else {
            dist_spec(names[idx], names[h.last().0 as int])
        })
    }
}

/// In a filled store the score of an item is exactly the score computed
/// from the names themselves: the engine's answers are about the names,
/// not merely about whatever the matrix happens to hold.
pub proof fn lemma_filled_score(
    rows: Seq<Seq<u64>>,
    names: Seq<Seq<char>>,
    h: Seq<(usize, bool)>,
    idx: int,
)
    requires
        filled_for(rows, names),
        0 <= idx < names.len(),
        forall|k: int| 0 <= k < h.len() ==> (#[trigger] h[k]).0 < names.len(),
    ensures
        score_spec(rows, h, idx) == name_score_spec(names, h, idx),
    decreases h.len(),
{
    if h.len() > 0 {
        assert(h.drop_last() =~= h.subrange(0, h.len() - 1));
        lemma_filled_score(rows, names, h.drop_last(), idx);
        lemma_filled_lookup(rows, names, idx, h.last().0 as int);
    }
}

/// The recommendation order: `i` is suggested no later than `j` when its
/// score is lower, or equal with the lower index winning the tie.
pub open spec fn prefers(rows: Seq<Seq<u64>>, h: Seq<(usize, bool)>, i: int, j: int) -> bool {
    ||| score_spec(rows, h, i) < score_spec(rows, h, j)
    ||| (score_spec(rows, h, i) == score_spec(rows, h, j) && i <= j)
}

/// The weighted score: the raw score rescaled, minus the commonness bonus
/// `c * weight`, so that among equal raw scores a more popular item ranks
/// strictly earlier whenever `c` is positive.
pub open spec fn adjusted_score_spec(
    rows: Seq<Seq<u64>>,
    h: Seq<(usize, bool)>,
    weights: Seq<u64>,
    c: u64,
    i: int,
) -> int {
    score_spec(rows, h, i) * DIST_SCALE - c * weights[i]
}

/// The weighted recommendation order, with the same lowest-index tie-break.
pub open spec fn prefers_weighted(
    rows: Seq<Seq<u64>>,
    h: Seq<(usize, bool)>,
    weights: Seq<u64>,
    c: u64,
    i: int,
    j: int,
) -> bool {
    ||| adjusted_score_spec(rows, h, weights, c, i) < adjusted_score_spec(rows, h, weights, c, j)
    ||| (adjusted_score_spec(rows, h, weights, c, i) == adjusted_score_spec(rows, h, weights, c, j)
        && i <= j)
}

/// With a positive commonness factor, the more popular of two items with
/// equal raw scores ranks strictly earlier in the weighted recommendation.
pub proof fn lemma_popularity_breaks_ties(
    rows: Seq<Seq<u64>>,
    h: Seq<(usize, bool)>,
    weights: Seq<u64>,
    c: u64,
    i: int,
    j: int,
)
    requires
        c > 0,
        0 <= i < weights.len(),
        0 <= j < weights.len(),
        score_spec(rows, h, i) == score_spec(rows, h, j),
        weights[i] > weights[j],
    ensures
        adjusted_score_spec(rows, h, weights, c, i) < adjusted_score_spec(rows, h, weights, c, j),
{
    lemma_mul_left_inequality(c as int, weights[j] as int, weights[i] as int);
}

/// In a proper, bounded triangle, every lookup of two valid indices stays
/// within `0 ..= DIST_SCALE`.
pub proof fn lemma_stored_in_range(rows: Seq<Seq<u64>>, a: int, b: int)
    requires
        triangle_shape(rows),
        entries_bounded(rows),
        0 <= a < rows.len(),
        0 <= b < rows.len(),
    ensures
        0 <= stored_distance(rows, a, b) <= DIST_SCALE,
{
    if a < b {
        assert(rows[a].len() == rows.len() - a - 1);
    } else if b < a {
        assert(rows[b].len() == rows.len() - b - 1);
    }
}

/// The score of a valid item against a history of valid keys is bounded by
/// one full distance per recorded decision.
pub proof fn lemma_score_bounds(rows: Seq<Seq<u64>>, h: Seq<(usize, bool)>, idx: int)
    requires
        triangle_shape(rows),
        entries_bounded(rows),
        0 <= idx < rows.len(),
        forall|k: int| 0 <= k < h.len() ==> (#[trigger] h[k]).0 < rows.len(),
    ensures
        -(h.len() * DIST_SCALE) <= score_spec(rows, h, idx) <= h.len() * DIST_SCALE,
    decreases h.len(),
{
    if h.len() > 0 {
        assert(h.drop_last() =~= h.subrange(0, h.len() - 1));
        lemma_score_bounds(rows, h.drop_last(), idx);
        lemma_stored_in_range(rows, idx, h.last().0 as int);
        assert((h.len() - 1) * DIST_SCALE == h.len() * DIST_SCALE - DIST_SCALE) by (nonlinear_arith);
    }
}

/// The lookup is symmetric: both orders of a pair read the same cell.
pub proof fn lemma_stored_distance_symmetric(rows: Seq<Seq<u64>>, a: int, b: int)
    ensures
        stored_distance(rows, a, b) == stored_distance(rows, b, a),
{
}

/// The diagonal of the lookup is zero.
pub proof fn lemma_stored_distance_diagonal(rows: Seq<Seq<u64>>, a: int)
    ensures
        stored_distance(rows, a, a) == 0,
{
}

/// In a filled store every lookup returns exactly the distance of the two
/// names, for both orders of every pair.
pub proof fn lemma_filled_lookup(rows: Seq<Seq<u64>>, names: Seq<Seq<char>>, a: int, b: int)
    requires
        filled_for(rows, names),
        0 <= a < names.len(),
        0 <= b < names.len(),
    ensures
        stored_distance(rows, a, b) == dist_spec(names[a], names[b]),
{
    if a == b {
        lemma_dist_self_zero(names[a]);
    } else if a < b {
        assert(rows[a][b - a - 1] == dist_spec(names[a], names[a + 1 + (b - a - 1)]));
    } else {
        assert(rows[b][a - b - 1] == dist_spec(names[b], names[b + 1 + (a - b - 1)]));
        lemma_dist_symmetric(names[a], names[b]);
    }
}

/// A filled store keeps every entry within `0 ..= DIST_SCALE`.
pub proof fn lemma_filled_bounded(rows: Seq<Seq<u64>>, names: Seq<Seq<char>>)
    requires
        filled_for(rows, names),
    ensures
        entries_bounded(rows),
{
    assert forall|i: int, k: int|
        0 <= i < rows.len() && 0 <= k < rows[i].len() implies #[trigger] rows[i][k]
        <= DIST_SCALE by {
        lemma_dist_bounds(names[i], names[i + 1 + k]);
    }
}

/// In a filled store every lookup is a normalized edit distance: at least
/// `0` and at most `DIST_SCALE`.
pub proof fn lemma_filled_distance_in_range(
    rows: Seq<Seq<u64>>,
    names: Seq<Seq<char>>,
    a: int,
    b: int,
)
    requires
        filled_for(rows, names),
        0 <= a < names.len(),
        0 <= b < names.len(),
    ensures
        0 <= stored_distance(rows, a, b) <= DIST_SCALE,
{
    lemma_filled_bounded(rows, names);
    lemma_stored_in_range(rows, a, b);
}

/// Filling is deterministic: any two stores completely built for the same
/// names are identical, however their rows were computed or installed.
pub proof fn lemma_fill_deterministic(
    rows1: Seq<Seq<u64>>,
    rows2: Seq<Seq<u64>>,
    names: Seq<Seq<char>>,
)
    requires
        filled_for(rows1, names),
        filled_for(rows2, names),
    ensures
        rows1 == rows2,
{
    assert forall|i: int| 0 <= i < rows1.len() implies rows1[i] =~= rows2[i] by {
        assert(rows1[i].len() == rows2[i].len());
    }
    assert(rows1 =~= rows2);
}

} // verus!
