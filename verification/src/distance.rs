//! The distance model: a normalized edit distance between two names,
//! held as a fixed-point fraction of `DIST_SCALE`.
//!
//! The mathematical reference is the classic Levenshtein recurrence
//! (`lev`); the stored distance is `lev(a, b) * DIST_SCALE / max(|a|, |b|)`,
//! rounded down, so that identical names sit at `0` and fully dissimilar
//! names of the same length sit at `DIST_SCALE`.

use vstd::arithmetic::div_mod::{
    lemma_div_by_multiple, lemma_div_by_self, lemma_div_is_ordered, lemma_div_of0,
    lemma_div_pos_is_pos,
};
use vstd::arithmetic::mul::lemma_mul_inequality;
use vstd::prelude::*;
use vstd::string::StrSliceExecFns;

verus! {

/// Denominator of the fixed-point distances: a distance of `DIST_SCALE`
/// means "as far apart as two names of this length can be".
pub const DIST_SCALE: u64 = 1_000_000;

pub open spec fn min_nat(a: nat, b: nat) -> nat {
    if a <= b {
        a
    } else {
        b
    }
}

pub open spec fn max_nat(a: nat, b: nat) -> nat {
    if a >= b {
        a
    } else {
        b
    }
}

/// The Levenshtein edit distance between two character sequences:
/// the least number of single-character insertions, deletions and
/// substitutions turning one into the other, by the usual recurrence.
pub open spec fn lev(a: Seq<char>, b: Seq<char>) -> nat
    decreases a.len() + b.len(),
{
    if a.len() == 0 {
        b.len()
    } else if b.len() == 0 {
        a.len()
    } else if a[0] == b[0] {
        lev(a.skip(1), b.skip(1))
    } else {
        min_nat(min_nat(lev(a.skip(1), b), lev(a, b.skip(1))), lev(a.skip(1), b.skip(1))) + 1
    }
}

/// The stored distance between two names: the edit distance normalized
/// by the longer length and scaled to `DIST_SCALE`, with the empty pair
/// pinned to `0`.
pub open spec fn dist_spec(a: Seq<char>, b: Seq<char>) -> int {
    if a.len() == 0 && b.len() == 0 {
        0
    } else {
        lev(a, b) * DIST_SCALE / (max_nat(a.len(), b.len()) as int)
    }
}

/// A name is at edit distance zero from itself.
pub proof fn lemma_lev_self(a: Seq<char>)
    ensures
        lev(a, a) == 0,
    decreases a.len(),
{
    if a.len() != 0 {
        lemma_lev_self(a.skip(1));
    }
}

/// The edit distance does not depend on the order of its arguments.
pub proof fn lemma_lev_symmetric(a: Seq<char>, b: Seq<char>)
    ensures
        lev(a, b) == lev(b, a),
    decreases a.len() + b.len(),
{
    if a.len() != 0 && b.len() != 0 {
        lemma_lev_symmetric(a.skip(1), b);
        lemma_lev_symmetric(a, b.skip(1));
        lemma_lev_symmetric(a.skip(1), b.skip(1));
    }
}

/// The edit distance never exceeds the longer length.
pub proof fn lemma_lev_le_max(a: Seq<char>, b: Seq<char>)
    ensures
        lev(a, b) <= max_nat(a.len(), b.len()),
    decreases a.len() + b.len(),
{
    if a.len() != 0 && b.len() != 0 {
        lemma_lev_le_max(a.skip(1), b.skip(1));
    }
}

/// Only equal sequences are at edit distance zero.
pub proof fn lemma_lev_zero_iff_eq(a: Seq<char>, b: Seq<char>)
    ensures
        lev(a, b) == 0 <==> a == b,
    decreases a.len() + b.len(),
{
    if a.len() == 0 || b.len() == 0 {
        if a.len() == 0 && b.len() == 0 {
            assert(a =~= b);
        }
    } else if a[0] == b[0] {
        lemma_lev_zero_iff_eq(a.skip(1), b.skip(1));
        if lev(a, b) == 0 {
            assert forall|i: int| 0 <= i < a.len() implies a[i] == b[i] by {
                if i > 0 {
                    assert(a[i] == a.skip(1)[i - 1]);
                    assert(b[i] == b.skip(1)[i - 1]);
                }
            }
            assert(a =~= b);
        } else if a == b {
            assert(a.skip(1) =~= b.skip(1));
        }
    }
}

/// Stored distances are symmetric.
pub proof fn lemma_dist_symmetric(a: Seq<char>, b: Seq<char>)
    ensures
        dist_spec(a, b) == dist_spec(b, a),
{
    lemma_lev_symmetric(a, b);
}

/// A name is at stored distance zero from itself.
pub proof fn lemma_dist_self_zero(a: Seq<char>)
    ensures
        dist_spec(a, a) == 0,
{
    lemma_lev_self(a);
    if a.len() != 0 {
        lemma_div_of0(a.len() as int);
    }
}

/// Stored distances stay between `0` and `DIST_SCALE`.
pub proof fn lemma_dist_bounds(a: Seq<char>, b: Seq<char>)
    ensures
        0 <= dist_spec(a, b) <= DIST_SCALE,
{
    if a.len() != 0 || b.len() != 0 {
        let m = max_nat(a.len(), b.len()) as int;
        lemma_lev_le_max(a, b);
        lemma_div_pos_is_pos(lev(a, b) * DIST_SCALE, m);
        lemma_mul_inequality(lev(a, b) as int, m, DIST_SCALE as int);
        lemma_div_is_ordered(lev(a, b) * DIST_SCALE, m * DIST_SCALE, m);
        lemma_div_by_multiple(DIST_SCALE as int, m);
    }
}

/// Relies on strsim::levenshtein: the least number of single-character
/// insertions, deletions and substitutions turning one string's characters
/// into the other's, computed by the standard dynamic program.
#[verifier::external_body]
fn levenshtein(a: &str, b: &str) -> (r: usize)
    ensures
        r == lev(a@, b@),
{
    strsim::levenshtein(a, b)
}

/// The fixed-point distance between two names: their edit distance,
/// normalized by the longer length and scaled to `DIST_SCALE`. Identical
/// names give `0`; an empty name is at `DIST_SCALE` from any other.
pub fn distance(a: &str, b: &str) -> (d: u64)
    ensures
        d == dist_spec(a@, b@),
        d <= DIST_SCALE,
{
    let la = a.unicode_len();
    let lb = b.unicode_len();
    if la == 0 && lb == 0 {
        proof {
            lemma_dist_bounds(a@, b@);
        }
        return 0;
    }
    let l = levenshtein(a, b);
    let m = if la >= lb {
        la
    } else {
        lb
    };
    proof {
        lemma_lev_le_max(a@, b@);
        lemma_mul_inequality(l as int, m as int, DIST_SCALE as int);
        lemma_div_is_ordered(l * DIST_SCALE, m * DIST_SCALE, m as int);
        lemma_div_by_multiple(DIST_SCALE as int, m as int);
        lemma_div_pos_is_pos(l * DIST_SCALE, m as int);
    }
    ((l as u128 * DIST_SCALE as u128) / (m as u128)) as u64
}

/// Only a name itself sits at stored distance zero from it, as long as
/// the names are short enough for the fixed-point grid to separate them.
pub proof fn lemma_dist_zero_iff_eq(a: Seq<char>, b: Seq<char>)
    requires
        max_nat(a.len(), b.len()) <= DIST_SCALE,
    ensures
        dist_spec(a, b) == 0 <==> a == b,
{
    lemma_lev_zero_iff_eq(a, b);
    if a.len() != 0 || b.len() != 0 {
        let m = max_nat(a.len(), b.len()) as int;
        if lev(a, b) == 0 {
            lemma_div_of0(m);
        } else {
            lemma_mul_inequality(1, lev(a, b) as int, DIST_SCALE as int);
            assert(1 * (DIST_SCALE as int) == DIST_SCALE);
            lemma_div_is_ordered(m, lev(a, b) * DIST_SCALE, m);
            lemma_div_by_self(m);
        }
    }
}

/// An empty name is at full distance from every non-empty name.
pub proof fn lemma_dist_empty(a: Seq<char>)
    requires
        a.len() != 0,
    ensures
        dist_spec(Seq::<char>::empty(), a) == DIST_SCALE,
        dist_spec(a, Seq::<char>::empty()) == DIST_SCALE,
{
    lemma_lev_symmetric(a, Seq::<char>::empty());
    lemma_div_by_multiple(DIST_SCALE as int, a.len() as int);
}

} // verus!
