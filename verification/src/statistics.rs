//! Per-year nation-size rankings: every country's annual province-count
//! samples, ordered by year and then by descending count, capped at the
//! largest twenty-five entries per year.

use crate::model::{CountryRecord, SaveModel};
use crate::order::seq_sum;
use crate::tags::Tag;
use vstd::prelude::*;

verus! {

/// One ranked sample: a country's province count in one year.
#[derive(Clone, Copy, PartialEq, Eq, Structural, Debug)]
pub struct NationSizeHistory {
    pub tag: Tag,
    pub year: u16,
    pub count: i32,
}

/// How many entries one year keeps.
pub const YEAR_RANK_LIMIT: usize = 25;

/// The samples one country contributes.
pub open spec fn country_rows(c: CountryRecord) -> Seq<NationSizeHistory> {
    Seq::new(
        c.ledger.nation_size@.len(),
        |k: int|
            NationSizeHistory {
                tag: c.stored_tag,
                year: c.ledger.nation_size@[k].year,
                count: c.ledger.nation_size@[k].value,
            },
    )
}

/// All samples of the save, country by country.
pub open spec fn exploded(cs: Seq<CountryRecord>) -> Seq<NationSizeHistory>
    decreases cs.len(),
{
    if cs.len() == 0 {
        Seq::<NationSizeHistory>::empty()
    } else {
        exploded(cs.drop_last()) + country_rows(cs.last())
    }
}

/// Rank order: by year, then by descending count, then by tag.
pub open spec fn rank_le(a: NationSizeHistory, b: NationSizeHistory) -> bool {
    ||| a.year < b.year
    ||| (a.year == b.year && a.count > b.count)
    ||| (a.year == b.year && a.count == b.count && a.tag.code <= b.tag.code)
}

pub open spec fn rank_sorted(s: Seq<NationSizeHistory>) -> bool {
    forall|i: int| #![trigger s[i]] 0 <= i && i + 1 < s.len() ==> rank_le(s[i], s[i + 1])
}

/// Stable insertion into rank order.
pub open spec fn rank_insert(s: Seq<NationSizeHistory>, x: NationSizeHistory) -> Seq<
    NationSizeHistory,
>
    decreases s.len(),
{
    if s.len() == 0 {
        seq![x]
    } else if rank_le(s[0], x) {
        seq![s[0]] + rank_insert(s.drop_first(), x)
    } else {
        seq![x] + s
    }
}

/// The stable rank sort.
pub open spec fn rank_sort_spec(v: Seq<NationSizeHistory>) -> Seq<NationSizeHistory>
    decreases v.len(),
{
    if v.len() == 0 {
        Seq::<NationSizeHistory>::empty()
    } else {
        rank_insert(rank_sort_spec(v.drop_last()), v.last())
    }
}

proof fn lemma_rank_insert_at(s: Seq<NationSizeHistory>, x: NationSizeHistory, j: int)
    requires
        0 <= j <= s.len(),
        forall|k: int| 0 <= k < j ==> rank_le(#[trigger] s[k], x),
        j < s.len() ==> !rank_le(s[j], x),
    ensures
        rank_insert(s, x) == s.insert(j, x),
    decreases j,
{
    if j == 0 {
        assert(rank_insert(s, x) =~= s.insert(0, x));
    } else {
        assert(rank_le(s[0], x));
        assert forall|k: int| 0 <= k < j - 1 implies rank_le(#[trigger] s.drop_first()[k], x) by {
            assert(s.drop_first()[k] == s[k + 1]);
        }
        assert(j - 1 < s.drop_first().len() ==> s.drop_first()[j - 1] == s[j]);
        lemma_rank_insert_at(s.drop_first(), x, j - 1);
        assert(seq![s[0]] + s.drop_first().insert(j - 1, x) =~= s.insert(j, x));
    }
}

/// Occurrences of one year among ranked rows.
pub open spec fn year_weight(y: u16) -> spec_fn(NationSizeHistory) -> int {
    |r: NationSizeHistory|
        if r.year == y {
            1int
        } else {
            0int
        }
}

/// Keeps each row whose year has fewer than the limit of earlier rows: on a
/// rank-sorted sequence, exactly each year's top entries.
pub open spec fn cap_per_year(s: Seq<NationSizeHistory>) -> Seq<NationSizeHistory>
    decreases s.len(),
{
    if s.len() == 0 {
        Seq::<NationSizeHistory>::empty()
    } else {
        let rest = cap_per_year(s.drop_last());
        if seq_sum(s.drop_last(), year_weight(s.last().year)) < YEAR_RANK_LIMIT {
            rest.push(s.last())
        } else {
            rest
        }
    }
}

fn rank_le_exec(a: &NationSizeHistory, b: &NationSizeHistory) -> (r: bool)
    ensures
        r == rank_le(*a, *b),
{
    a.year < b.year || (a.year == b.year && a.count > b.count) || (a.year == b.year && a.count
        == b.count && a.tag.code <= b.tag.code)
}

/// Counts the rows of `v`'s first `upto` entries dated in `year`.
fn count_year(v: &Vec<NationSizeHistory>, upto: usize, year: u16) -> (r: usize)
    requires
        upto <= v@.len(),
    ensures
        r == seq_sum(v@.take(upto as int), year_weight(year)),
        r <= upto,
{
    let mut r: usize = 0;
    let mut i: usize = 0;
    while i < upto
        invariant
            upto <= v@.len(),
            i <= upto,
            r == seq_sum(v@.take(i as int), year_weight(year)),
            r <= i,
        decreases upto - i,
    {
        proof {
            assert(v@.take(i + 1).drop_last() == v@.take(i as int));
            assert(v@.take(i + 1).last() == v@[i as int]);
        }
        if v[i].year == year {
            r = r + 1;
        }
        i = i + 1;
    }
    r
}

/// Ranks every country's annual nation-size samples: sorted by year, then
/// by descending count, then by tag, keeping only each year's largest
/// twenty-five entries. The result is exactly the per-year cap of the
/// stably rank-sorted samples.
pub fn get_nation_size_statistics(save: &SaveModel) -> (r: Vec<NationSizeHistory>)
    ensures
        r@ == cap_per_year(rank_sort_spec(exploded(save.countries@))),
        rank_sorted(rank_sort_spec(exploded(save.countries@))),
{
    // explode
    let mut rows: Vec<NationSizeHistory> = Vec::new();
    let mut i: usize = 0;
    while i < save.countries.len()
        invariant
            i <= save.countries@.len(),
            rows@ == exploded(save.countries@.take(i as int)),
        decreases save.countries@.len() - i,
    {
        proof {
            assert(save.countries@.take(i + 1).drop_last() == save.countries@.take(i as int));
            assert(save.countries@.take(i + 1).last() == save.countries@[i as int]);
        }
        let series = &save.countries[i].ledger.nation_size;
        let mut k: usize = 0;
        while k < series.len()
            invariant
                0 <= i < save.countries@.len(),
                series == &save.countries@[i as int].ledger.nation_size,
                k <= series@.len(),
                rows@ == exploded(save.countries@.take(i as int)) + country_rows(
                    save.countries@[i as int],
                ).take(k as int),
            decreases series@.len() - k,
        {
            rows.push(
                NationSizeHistory {
                    tag: save.countries[i].stored_tag,
                    year: series[k].year,
                    count: series[k].value,
                },
            );
            proof {
                assert(country_rows(save.countries@[i as int]).take(k + 1) =~= country_rows(
                    save.countries@[i as int],
                ).take(k as int).push(country_rows(save.countries@[i as int])[k as int]));
            }
            k = k + 1;
        }
        proof {
            assert(country_rows(save.countries@[i as int]).take(
                country_rows(save.countries@[i as int]).len() as int,
            ) == country_rows(save.countries@[i as int]));
        }
        i = i + 1;
    }
    proof {
        assert(save.countries@.take(save.countries@.len() as int) == save.countries@);
    }
    // rank sort
    let mut sorted: Vec<NationSizeHistory> = Vec::new();
    let mut a: usize = 0;
    while a < rows.len()
        invariant
            a <= rows@.len(),
            sorted@ == rank_sort_spec(rows@.take(a as int)),
            rank_sorted(sorted@),
        decreases rows@.len() - a,
    {
        let x = rows[a];
        let mut j: usize = 0;
        while j < sorted.len() && rank_le_exec(&sorted[j], &x)
            invariant
                j <= sorted@.len(),
                forall|k: int| 0 <= k < j ==> rank_le(#[trigger] sorted@[k], x),
            decreases sorted@.len() - j,
        {
            j = j + 1;
        }
        let ghost old_sorted = sorted@;
        sorted.insert(j, x);
        proof {
            old_sorted.insert_ensures(j as int, x);
            assert(rows@.take(a + 1).drop_last() == rows@.take(a as int));
            assert(rows@.take(a + 1).last() == rows@[a as int]);
            lemma_rank_insert_at(old_sorted, x, j as int);
            assert(sorted@ == rank_sort_spec(rows@.take(a + 1)));
            assert forall|k: int|
                #![trigger sorted@[k]]
                0 <= k && k + 1 < sorted@.len() implies rank_le(sorted@[k], sorted@[k + 1]) by {
                if k + 1 < j {
                    assert(sorted@[k] == old_sorted[k]);
                    assert(sorted@[k + 1] == old_sorted[k + 1]);
                } else if k + 1 == j {
                    assert(sorted@[k] == old_sorted[k]);
                    assert(sorted@[k + 1] == x);
                } else if k == j {
                    assert(sorted@[k] == x);
                    assert(sorted@[k + 1] == old_sorted[k]);
                    assert(!rank_le(old_sorted[j as int], x));
                } else {
                    assert(sorted@[k] == old_sorted[k - 1]);
                    assert(sorted@[k + 1] == old_sorted[k]);
                }
            }
        }
        a = a + 1;
    }
    proof {
        assert(rows@.take(rows@.len() as int) == rows@);
    }
    // cap each year at the limit
    let mut out: Vec<NationSizeHistory> = Vec::new();
    let mut c: usize = 0;
    while c < sorted.len()
        invariant
            c <= sorted@.len(),
            out@ == cap_per_year(sorted@.take(c as int)),
        decreases sorted@.len() - c,
    {
        proof {
            assert(sorted@.take(c + 1).drop_last() == sorted@.take(c as int));
            assert(sorted@.take(c + 1).last() == sorted@[c as int]);
        }
        let n = count_year(&sorted, c, sorted[c].year);
        if n < YEAR_RANK_LIMIT {
            out.push(sorted[c]);
        }
        c = c + 1;
    }
    proof {
        assert(sorted@.take(sorted@.len() as int) == sorted@);
    }
    out
}

} // verus!
