//! The name-list preparation rules: which rows of the raw data set count,
//! how a raw name is normalized for display, and how the per-name
//! popularity weights are computed. The surrounding I/O (downloading,
//! unzipping, CSV decoding) stays outside; this module takes plain rows
//! and returns the ordered name list with its parallel weight list.

use crate::distance::DIST_SCALE;
use vstd::arithmetic::div_mod::{lemma_div_by_multiple, lemma_div_is_ordered, lemma_div_pos_is_pos};
use vstd::arithmetic::mul::lemma_mul_inequality;
use vstd::prelude::*;
use vstd::utf8::encode_utf8;

verus! {

/// Rows older than this year are ignored when weighting by frequency.
pub const MIN_YEAR: u16 = 1970;

/// Which half of the data set to draw names from.
#[derive(Clone, Copy, Debug, PartialEq, Eq, Structural)]
pub enum Sex {
    MALE,
    FEMALE,
}

/// The code that marks a sex in the raw data rows.
pub open spec fn sex_code(s: Sex) -> u8 {
    match s {
        Sex::MALE => 1,
        Sex::FEMALE => 2,
    }
}

impl Sex {
    /// The code that marks this sex in the raw data rows.
    pub fn code(&self) -> (c: u8)
        ensures
            c == sex_code(*self),
    {
        match self {
            Sex::MALE => 1,
            Sex::FEMALE => 2,
        }
    }
}

/// One raw data row, already decoded to plain values: the sex code of the
/// row, the raw name, the year it was recorded for (0 when unreadable) and
/// how often it was given that year.
pub struct NameRecord {
    pub sex_code: u8,
    pub name: String,
    pub year: u16,
    pub count: u64,
}

/// What heck's title casing returns for the characters of a string.
pub uninterp spec fn title_of(s: Seq<char>) -> Seq<char>;

/// What unidecode's transliteration returns for the characters of a string.
pub uninterp spec fn unidecode_of(s: Seq<char>) -> Seq<char>;

/// Relies on heck::ToTitleCase::to_title_case: capitalizes each word and
/// joins the words with single spaces; the result depends on the
/// characters alone.
#[verifier::external_body]
fn to_title_case(s: &str) -> (r: String)
    ensures
        r@ == title_of(s@),
{
    heck::ToTitleCase::to_title_case(s)
}

/// A raw name in title case: each word capitalized, the words joined by
/// single spaces.
pub fn title_case(s: &str) -> (r: String)
    ensures
        r@ == title_of(s@),
{
    to_title_case(s)
}

/// Relies on unidecode::unidecode: transliterates the characters to their
/// closest ASCII rendering; the result depends on the characters alone.
#[verifier::external_body]
fn unidecode_ascii(s: &str) -> (r: String)
    ensures
        r@ == unidecode_of(s@),
{
    unidecode::unidecode(s)
}

/// A raw name as it is shown: title-cased, then stripped of accents.
pub open spec fn normalized_name(name: Seq<char>) -> Seq<char> {
    unidecode_of(title_of(name))
}

/// Whether a raw row takes part: right sex, a name of more than one byte
/// that is not the data set's rare-names marker, and a year in range.
pub open spec fn keeps(r: NameRecord, sex: Sex) -> bool {
    &&& r.sex_code == sex_code(sex)
    &&& (encode_utf8(r.name@).len() as usize) > 1
    &&& r.name@ != "_PRENOMS_RARES"@
    &&& r.year >= MIN_YEAR
}

/// The kept rows in order, each as its normalized name and its count.
pub open spec fn processed(rs: Seq<NameRecord>, sex: Sex) -> Seq<(Seq<char>, u64)>
    decreases rs.len(),
{
    if rs.len() == 0 {
        Seq::empty()
    } else {
        let rest = processed(rs.drop_last(), sex);
        if keeps(rs.last(), sex) {
            rest.push((normalized_name(rs.last().name@), rs.last().count))
        } else {
            rest
        }
    }
}

/// The distinct names, with consecutive repeats collapsed: the data set
/// lists one row per year, so a name's rows sit next to each other.
pub open spec fn run_names(ps: Seq<(Seq<char>, u64)>) -> Seq<Seq<char>>
    decreases ps.len(),
{
    if ps.len() == 0 {
        Seq::empty()
    } else {
        let rest = run_names(ps.drop_last());
        if rest.len() > 0 && rest.last() == ps.last().0 {
            rest
        } else {
            rest.push(ps.last().0)
        }
    }
}

/// The total count of each run of consecutive equal names, in the order of
/// `run_names`.
pub open spec fn run_sums(ps: Seq<(Seq<char>, u64)>) -> Seq<int>
    decreases ps.len(),
{
    if ps.len() == 0 {
        Seq::empty()
    } else {
        let rest_names = run_names(ps.drop_last());
        let rest = run_sums(ps.drop_last());
        if rest_names.len() > 0 && rest_names.last() == ps.last().0 {
            rest.update(rest.len() - 1, rest.last() + ps.last().1)
        } else {
            rest.push(ps.last().1 as int)
        }
    }
}

/// The largest entry of a sequence, `0` for the empty one.
pub open spec fn seq_max(s: Seq<int>) -> int
    decreases s.len(),
{
    if s.len() == 0 {
        0
    } else if s.last() >= seq_max(s.drop_last()) {
        s.last()
    } else {
        seq_max(s.drop_last())
    }
}

/// The popularity weight of the `i`-th distinct name: its run total as a
/// fixed-point fraction of the largest run total, or `0` when no row
/// carried a count.
pub open spec fn weight_spec(ps: Seq<(Seq<char>, u64)>, i: int) -> int {
    let sums = run_sums(ps);
    let m = seq_max(sums);
    if m <= 0 {
        0
    } else {
        sums[i] * DIST_SCALE / m
    }
}

/// There is one run total per distinct name.
pub proof fn lemma_runs_same_length(ps: Seq<(Seq<char>, u64)>)
    ensures
        run_names(ps).len() == run_sums(ps).len(),
    decreases ps.len(),
{
    if ps.len() > 0 {
        lemma_runs_same_length(ps.drop_last());
    }
}

/// There are distinct names exactly when there are kept rows.
pub proof fn lemma_run_names_empty(ps: Seq<(Seq<char>, u64)>)
    ensures
        run_names(ps).len() == 0 <==> ps.len() == 0,
    decreases ps.len(),
{
    if ps.len() > 0 {
        lemma_run_names_empty(ps.drop_last());
    }
}

/// Run totals are sums of counts, so never negative.
pub proof fn lemma_run_sums_nonneg(ps: Seq<(Seq<char>, u64)>)
    ensures
        forall|i: int| 0 <= i < run_sums(ps).len() ==> 0 <= #[trigger] run_sums(ps)[i],
    decreases ps.len(),
{
    if ps.len() > 0 {
        lemma_run_sums_nonneg(ps.drop_last());
        lemma_runs_same_length(ps.drop_last());
    }
}

/// Every entry is at most the maximum.
pub proof fn lemma_seq_max_ge(s: Seq<int>, i: int)
    requires
        0 <= i < s.len(),
    ensures
        s[i] <= seq_max(s),
    decreases s.len(),
{
    if i < s.len() - 1 {
        lemma_seq_max_ge(s.drop_last(), i);
    }
}

/// First pass over the raw rows: the distinct normalized names and their
/// run totals, exactly `run_names` and `run_sums` of the kept rows.
fn accumulate_runs(records: &Vec<NameRecord>, sex: &Sex) -> (r: (Vec<String>, Vec<u128>))
    requires
        records@.len() <= 0xffff_ffff,
    ensures
        ({
            let ps = processed(records@, *sex);
            &&& r.0@.len() == run_names(ps).len()
            &&& forall|i: int| 0 <= i < r.0@.len() ==> r.0@[i]@ == run_names(ps)[i]
            &&& r.1@.len() == run_names(ps).len()
            &&& forall|i: int| 0 <= i < r.1@.len() ==> r.1@[i] as int == run_sums(ps)[i]
            &&& forall|i: int|
                0 <= i < r.1@.len() ==> r.1@[i] <= 0xffff_ffff * (u64::MAX as int)
        }),
{
    let rare: String = "_PRENOMS_RARES".to_owned();
    let sex_c = sex.code();
    let mut names: Vec<String> = Vec::new();
    let mut sums: Vec<u128> = Vec::new();
    let n = records.len();
    let mut k: usize = 0;
    while k < n
        invariant
            k <= n,
            n == records@.len(),
            n <= 0xffff_ffff,
            rare@ == "_PRENOMS_RARES"@,
            sex_c == sex_code(*sex),
            names@.len() == run_names(processed(records@.take(k as int), *sex)).len(),
            forall|i: int|
                0 <= i < names@.len() ==> names@[i]@ == run_names(
                    processed(records@.take(k as int), *sex),
                )[i],
            sums@.len() == names@.len(),
            forall|i: int|
                0 <= i < sums@.len() ==> sums@[i] as int == run_sums(
                    processed(records@.take(k as int), *sex),
                )[i],
            forall|i: int| 0 <= i < sums@.len() ==> sums@[i] <= k * (u64::MAX as int),
        decreases n - k,
    {
        let ghost ps_old = processed(records@.take(k as int), *sex);
        proof {
            assert(records@.take(k + 1).drop_last() =~= records@.take(k as int));
            assert(records@.take(k + 1).last() == records@[k as int]);
            lemma_runs_same_length(ps_old);
        }
        let rec = &records[k];
        let keep = rec.sex_code == sex_c && rec.name.as_str().len() > 1 && !(rec.name == rare)
            && rec.year >= MIN_YEAR;
        proof {
            assert(keep == keeps(records@[k as int], *sex));
        }
        if keep {
            let ghost ps_new = processed(records@.take(k + 1), *sex);
            let t = title_case(rec.name.as_str());
            let nm = unidecode_ascii(t.as_str());
            proof {
                assert(ps_new == ps_old.push((normalized_name(records@[k as int].name@), records@[k as int].count)));
                assert(ps_new.drop_last() =~= ps_old);
                assert(nm@ == normalized_name(records@[k as int].name@));
            }
            let cnt = rec.count;
            let mut matched = false;
            let ln = names.len();
            if ln > 0 {
                if names[ln - 1] == nm {
                    matched = true;
                }
            }
            if matched {
                let li = sums.len() - 1;
                let s0 = sums[li];
                proof {
                    assert(sums@[li as int] <= k * (u64::MAX as int));
                }
                sums[li] = s0 + cnt as u128;
            } else {
                names.push(nm);
                sums.push(cnt as u128);
            }
            proof {
                assert(run_names(ps_new) == if matched {
                    run_names(ps_old)
                } else {
                    run_names(ps_old).push(nm@)
                });
            }
        } else {
            proof {
                assert(processed(records@.take(k + 1), *sex) == ps_old);
            }
        }
        k = k + 1;
    }
    proof {
        assert(records@.take(n as int) =~= records@);
    }
    (names, sums)
}

/// The full preparation: filters the raw rows, normalizes the kept names,
/// collapses consecutive repeats, and weights each distinct name by its
/// total count relative to the most frequent one. Returns `None` exactly
/// when no row passes the filter.
pub fn process_records(records: &Vec<NameRecord>, sex: &Sex) -> (r: Option<
    (Vec<String>, Vec<u64>),
>)
    requires
        records@.len() <= 0xffff_ffff,
    ensures
        ({
            let ps = processed(records@, *sex);
            match r {
                Some(nw) => {
                    &&& ps.len() > 0
                    &&& nw.0@.len() == run_names(ps).len()
                    &&& forall|i: int| 0 <= i < nw.0@.len() ==> nw.0@[i]@ == run_names(ps)[i]
                    &&& nw.1@.len() == nw.0@.len()
                    &&& forall|i: int| 0 <= i < nw.1@.len() ==> nw.1@[i] == weight_spec(ps, i)
                    &&& forall|i: int| 0 <= i < nw.1@.len() ==> nw.1@[i] <= DIST_SCALE
                },
                None => ps.len() == 0,
            }
        }),
{
    let ghost ps = processed(records@, *sex);
    let (names, sums) = accumulate_runs(records, sex);
    proof {
        lemma_run_names_empty(ps);
        lemma_runs_same_length(ps);
        lemma_run_sums_nonneg(ps);
    }
    if names.is_empty() {
        return None;
    }
    let ghost s_int = run_sums(ps);
    let m = sums.len();
    let mut mx: u128 = 0;
    let mut i: usize = 0;
    while i < m
        invariant
            i <= m,
            m == sums@.len(),
            sums@.len() == s_int.len(),
            forall|j: int| 0 <= j < sums@.len() ==> sums@[j] as int == s_int[j],
            mx as int == seq_max(s_int.take(i as int)),
        decreases m - i,
    {
        proof {
            assert(s_int.take(i + 1).drop_last() =~= s_int.take(i as int));
            assert(s_int.take(i + 1).last() == s_int[i as int]);
        }
        if sums[i] > mx {
            mx = sums[i];
        }
        i = i + 1;
    }
    proof {
        assert(s_int.take(m as int) =~= s_int);
    }
    let mut weights: Vec<u64> = Vec::new();
    let mut j: usize = 0;
    while j < m
        invariant
            j <= m,
            m == sums@.len(),
            sums@.len() == s_int.len(),
            forall|l: int| 0 <= l < sums@.len() ==> sums@[l] as int == s_int[l],
            forall|l: int| 0 <= l < sums@.len() ==> sums@[l] <= 0xffff_ffff * (u64::MAX as int),
            forall|l: int| 0 <= l < s_int.len() ==> 0 <= #[trigger] s_int[l],
            mx as int == seq_max(s_int),
            weights@.len() == j,
            forall|l: int| 0 <= l < j ==> #[trigger] weights@[l] == weight_spec(ps, l),
            forall|l: int| 0 <= l < j ==> #[trigger] weights@[l] <= DIST_SCALE,
            s_int == run_sums(ps),
        decreases m - j,
    {
        let w: u64 = if mx == 0 {
            0
        } else {
            proof {
                lemma_seq_max_ge(s_int, j as int);
                lemma_mul_inequality(s_int[j as int], mx as int, DIST_SCALE as int);
                lemma_div_is_ordered(
                    s_int[j as int] * DIST_SCALE,
                    (mx as int) * DIST_SCALE,
                    mx as int,
                );
                lemma_div_by_multiple(DIST_SCALE as int, mx as int);
                lemma_div_pos_is_pos(s_int[j as int] * DIST_SCALE, mx as int);
            }
            ((sums[j] * (DIST_SCALE as u128)) / mx) as u64
        };
        weights.push(w);
        j = j + 1;
    }
    Some((names, weights))
}

} // verus!
