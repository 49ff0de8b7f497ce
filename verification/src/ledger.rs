//! The ledger aggregator: merges sparse annual statistic points per country
//! into gap-filled, localized series suitable for charting.
//!
//! Gap semantics: after sorting by `(year, tag)`, any two consecutive points
//! of the same tag whose years are not adjacent get explicit null-valued
//! points for every intermediate year — never interpolated values — so a
//! chart renderer cannot draw a line across a true data gap. The fill is
//! pinned exactly — [`gap_fill`] returns [`fill_spec`] of the stable sort
//! of its input — and running it on its own output changes nothing: the
//! output is sorted and already filled, and on sorted, filled input the
//! fill is the identity.

use crate::dates::Date;
use crate::identity::{
    epochs_dates_wf, find_stored_spec, held_at_spec, lemma_find_stored_in_range, tag_held_at,
    Identity, IdentityIndex,
};
use crate::model::{CountryRecord, PlayerRecord, SaveModel, StatisticPoint, TagName};
use crate::order::{bytes_le, lemma_bytes_le_total, lemma_insert_to_multiset, str_bytes, str_le};
use crate::tags::Tag;
use vstd::prelude::*;

verus! {

/// One collected sample: the tag that held the sampled identity in that
/// year, the year, and the sampled value.
#[derive(Clone, Copy, PartialEq, Eq, Structural, Debug)]
pub struct LedgerPoint {
    pub tag: Tag,
    pub year: u16,
    pub value: i32,
}

/// A chart point: a real sample (`Some`) or an inserted null marking a gap.
#[derive(Clone, Copy, PartialEq, Debug)]
pub struct OptionalLedgerPoint {
    pub tag: Tag,
    pub year: u16,
    pub value: Option<i32>,
}

/// A tag together with its localized display name.
#[derive(Clone, PartialEq, Debug)]
pub struct LocalizedTag {
    pub tag: Tag,
    pub name: String,
}

/// A gap-filled, localized annual series: its points in legend order and the
/// display names of every tag that appears in them.
#[derive(Clone, Debug)]
pub struct LocalizedLedger {
    pub points: Vec<OptionalLedgerPoint>,
    pub localization: Vec<LocalizedTag>,
}

/// Order on chart points by `(year, tag)`.
pub open spec fn point_le(a: OptionalLedgerPoint, b: OptionalLedgerPoint) -> bool {
    a.year < b.year || (a.year == b.year && a.tag.code <= b.tag.code)
}

/// Adjacent-pairwise sortedness by `(year, tag)`.
pub open spec fn sorted_points(s: Seq<OptionalLedgerPoint>) -> bool {
    forall|i: int| #![trigger s[i]] 0 <= i && i + 1 < s.len() ==> point_le(s[i], s[i + 1])
}

/// Pairwise order extends to any two positions.
pub proof fn lemma_sorted_points_global(s: Seq<OptionalLedgerPoint>, i: int, j: int)
    requires
        sorted_points(s),
        0 <= i <= j < s.len(),
    ensures
        point_le(s[i], s[j]),
    decreases j - i,
{
    if i < j {
        lemma_sorted_points_global(s, i, j - 1);
    }
}

/// No same-tag consecutive pair skips a year: every gap has been filled.
pub open spec fn filled(s: Seq<OptionalLedgerPoint>) -> bool {
    forall|i: int|
        #![trigger s[i]]
        0 <= i && i + 1 < s.len() ==> (s[i].tag == s[i + 1].tag ==> s[i + 1].year <= s[i].year
            + 1)
}

/// Stable insertion of `x` into a sorted sequence: after every element
/// ordered at or before it.
pub open spec fn insert_sorted(s: Seq<OptionalLedgerPoint>, x: OptionalLedgerPoint) -> Seq<
    OptionalLedgerPoint,
>
    decreases s.len(),
{
    if s.len() == 0 {
        seq![x]
    } else if point_le(s[0], x) {
        seq![s[0]] + insert_sorted(s.drop_first(), x)
    } else {
        seq![x] + s
    }
}

/// The stable `(year, tag)` sort, defined by repeated stable insertion.
pub open spec fn sort_spec(v: Seq<OptionalLedgerPoint>) -> Seq<OptionalLedgerPoint>
    decreases v.len(),
{
    if v.len() == 0 {
        Seq::<OptionalLedgerPoint>::empty()
    } else {
        insert_sorted(sort_spec(v.drop_last()), v.last())
    }
}

/// Stable insertion lands exactly at the first position whose element is
/// not ordered at or before `x`.
proof fn lemma_insert_sorted_at(s: Seq<OptionalLedgerPoint>, x: OptionalLedgerPoint, j: int)
    requires
        0 <= j <= s.len(),
        forall|k: int| 0 <= k < j ==> point_le(#[trigger] s[k], x),
        j < s.len() ==> !point_le(s[j], x),
    ensures
        insert_sorted(s, x) == s.insert(j, x),
    decreases j,
{
    if j == 0 {
        if s.len() == 0 {
            assert(insert_sorted(s, x) =~= s.insert(0, x));
        } else {
            assert(insert_sorted(s, x) =~= s.insert(0, x));
        }
    } else {
        assert(point_le(s[0], x));
        assert forall|k: int| 0 <= k < j - 1 implies point_le(#[trigger] s.drop_first()[k], x) by {
            assert(s.drop_first()[k] == s[k + 1]);
        }
        assert(j - 1 < s.drop_first().len() ==> s.drop_first()[j - 1] == s[j]);
        lemma_insert_sorted_at(s.drop_first(), x, j - 1);
        assert(seq![s[0]] + s.drop_first().insert(j - 1, x) =~= s.insert(j, x));
    }
}

/// The null points the fill owes between two points adjacent in sorted
/// order: one per skipped year when they share a tag, nothing otherwise.
pub open spec fn nulls_between(a: OptionalLedgerPoint, b: OptionalLedgerPoint) -> Seq<
    OptionalLedgerPoint,
> {
    if a.tag == b.tag && a.year + 1 < b.year {
        Seq::new(
            (b.year - a.year - 1) as nat,
            |k: int| OptionalLedgerPoint { tag: a.tag, year: (a.year + 1 + k) as u16, value: None },
        )
    } else {
        Seq::<OptionalLedgerPoint>::empty()
    }
}

/// The fill of a sorted sequence: each point in order, preceded by the null
/// points owed between it and its predecessor.
pub open spec fn fill_spec(s: Seq<OptionalLedgerPoint>) -> Seq<OptionalLedgerPoint>
    decreases s.len(),
{
    if s.len() <= 1 {
        s
    } else {
        fill_spec(s.drop_last()) + nulls_between(s[s.len() - 2], s.last()) + seq![s.last()]
    }
}

fn point_le_exec(a: &OptionalLedgerPoint, b: &OptionalLedgerPoint) -> (r: bool)
    ensures
        r == point_le(*a, *b),
{
    a.year < b.year || (a.year == b.year && a.tag.code <= b.tag.code)
}

/// Sorts chart points by `(year, tag)`. Keeps the multiset of points; an
/// already sorted sequence comes back unchanged.
pub fn sort_points(v: &Vec<OptionalLedgerPoint>) -> (r: Vec<OptionalLedgerPoint>)
    ensures
        r@ == sort_spec(v@),
        sorted_points(r@),
        r@.to_multiset() == v@.to_multiset(),
        sorted_points(v@) ==> r@ == v@,
{
    broadcast use vstd::seq_lib::group_to_multiset_ensures;

    let mut out: Vec<OptionalLedgerPoint> = Vec::new();
    let mut i: usize = 0;
    proof {
        assert(v@.take(0int) == Seq::<OptionalLedgerPoint>::empty());
        assert(out@.to_multiset() =~= v@.take(0int).to_multiset());
    }
    while i < v.len()
        invariant
            i <= v@.len(),
            out@ == sort_spec(v@.take(i as int)),
            sorted_points(out@),
            out@.to_multiset() == v@.take(i as int).to_multiset(),
            out@.len() == i,
            sorted_points(v@) ==> out@ == v@.take(i as int),
        decreases v@.len() - i,
    {
        let x = v[i];
        let mut j: usize = 0;
        while j < out.len() && point_le_exec(&out[j], &x)
            invariant
                j <= out@.len(),
                forall|k: int| 0 <= k < j ==> point_le(#[trigger] out@[k], x),
        decreases out@.len() - j,
        {
            j = j + 1;
        }
        let ghost old_out = out@;
        out.insert(j, x);
        proof {
            lemma_insert_to_multiset(old_out, j as int, x);
            old_out.insert_ensures(j as int, x);
            assert(v@.take(i + 1) == v@.take(i as int).push(x));
            assert(v@.take(i + 1).drop_last() == v@.take(i as int));
            assert(v@.take(i + 1).last() == x);
            lemma_insert_sorted_at(old_out, x, j as int);
            assert(out@ == sort_spec(v@.take(i + 1)));
            vstd::seq_lib::to_multiset_build::<OptionalLedgerPoint>(v@.take(i as int), x);
            assert(out@.to_multiset() =~= v@.take(i + 1).to_multiset());
            // sortedness of the inserted sequence
            assert forall|k: int| #![trigger out@[k]] 0 <= k && k + 1 < out@.len() implies point_le(
                out@[k],
                out@[k + 1],
            ) by {
                if k + 1 < j {
                    assert(out@[k] == old_out[k]);
                    assert(out@[k + 1] == old_out[k + 1]);
                } else if k + 1 == j {
                    assert(out@[k] == old_out[k]);
                    assert(out@[k + 1] == x);
                } else if k == j {
                    assert(out@[k] == x);
                    assert(out@[k + 1] == old_out[k]);
                    assert(!point_le(old_out[j as int], x));
                } else {
                    assert(out@[k] == old_out[k - 1]);
                    assert(out@[k + 1] == old_out[k]);
                }
            }
            // an already sorted input is rebuilt unchanged
            if sorted_points(v@) {
                assert forall|k: int| 0 <= k < old_out.len() implies point_le(old_out[k], x) by {
                    assert(old_out == v@.take(i as int));
                    assert(old_out[k] == v@[k]);
                    lemma_sorted_points_global(v@, k, i as int);
                }
                assert(j == old_out.len());
                assert(out@ == old_out.push(x));
                assert(out@ == v@.take(i + 1));
            }
        }
        i = i + 1;
    }
    proof {
        assert(v@.take(v@.len() as int) == v@);
    }
    out
}

/// The fill of a non-empty sequence ends with that sequence's last point.
proof fn lemma_fill_last(s: Seq<OptionalLedgerPoint>)
    requires
        s.len() > 0,
    ensures
        fill_spec(s).len() > 0,
        fill_spec(s).last() == s.last(),
{
    if s.len() == 1 {
    } else {
        assert(fill_spec(s) == fill_spec(s.drop_last()) + nulls_between(s[s.len() - 2], s.last())
            + seq![s.last()]);
    }
}

/// The drop of a sorted (or filled) sequence stays sorted (or filled).
proof fn lemma_drop_last_props(s: Seq<OptionalLedgerPoint>)
    requires
        s.len() > 0,
    ensures
        sorted_points(s) ==> sorted_points(s.drop_last()),
        filled(s) ==> filled(s.drop_last()),
{
    let sp = s.drop_last();
    assert forall|k: int| 0 <= k < sp.len() implies #[trigger] sp[k] == s[k] by {}
}

/// The fill of a sorted sequence is sorted and gap-free.
proof fn lemma_fill_sorted_filled(s: Seq<OptionalLedgerPoint>)
    requires
        sorted_points(s),
    ensures
        sorted_points(fill_spec(s)),
        filled(fill_spec(s)),
    decreases s.len(),
{
    if s.len() <= 1 {
    } else {
        lemma_drop_last_props(s);
        lemma_fill_sorted_filled(s.drop_last());
        lemma_fill_last(s.drop_last());
        let fp = fill_spec(s.drop_last());
        let a = s[s.len() - 2];
        let b = s.last();
        let nb = nulls_between(a, b);
        let f = fill_spec(s);
        assert(f == fp + nb + seq![b]);
        assert(fp.last() == a);
        assert(point_le(a, b));
        assert forall|q: int|
            #![trigger f[q]]
            0 <= q && q + 1 < f.len() implies point_le(f[q], f[q + 1]) && (f[q].tag == f[q
                + 1].tag ==> f[q + 1].year <= f[q].year + 1) by {
            if q + 1 < fp.len() {
                assert(f[q] == fp[q] && f[q + 1] == fp[q + 1]);
            } else if q + 1 == fp.len() {
                assert(f[q] == fp[q] && fp[q] == fp.last());
                if nb.len() > 0 {
                    assert(f[q + 1] == nb[0]);
                } else {
                    assert(f[q + 1] == b);
                }
            } else if q + 1 < fp.len() + nb.len() {
                assert(f[q] == nb[q - fp.len()] && f[q + 1] == nb[q + 1 - fp.len()]);
            } else {
                if nb.len() > 0 {
                    assert(f[q] == nb[nb.len() - 1] && f[q + 1] == b);
                } else {
                    assert(f[q] == fp.last() && f[q + 1] == b);
                }
            }
        }
    }
}

/// Every real point of a fill comes from the filled sequence, and every
/// point of that sequence appears in its fill.
proof fn lemma_fill_content(s: Seq<OptionalLedgerPoint>)
    ensures
        forall|q: int| 0 <= q < fill_spec(s).len() && (#[trigger] fill_spec(s)[q]).value is Some
            ==> s.contains(fill_spec(s)[q]),
        forall|k: int| 0 <= k < s.len() ==> fill_spec(s).contains(#[trigger] s[k]),
    decreases s.len(),
{
    if s.len() <= 1 {
        assert forall|k: int| 0 <= k < s.len() implies fill_spec(s).contains(#[trigger] s[k]) by {
            assert(fill_spec(s)[k] == s[k]);
        }
    } else {
        lemma_fill_content(s.drop_last());
        let sp = s.drop_last();
        let fp = fill_spec(sp);
        let nb = nulls_between(s[s.len() - 2], s.last());
        let f = fill_spec(s);
        assert(f == fp + nb + seq![s.last()]);
        assert forall|q: int|
            0 <= q < f.len() && (#[trigger] f[q]).value is Some implies s.contains(f[q]) by {
            if q < fp.len() {
                assert(f[q] == fp[q]);
                let w = choose|w: int| 0 <= w < sp.len() && sp[w] == fp[q];
                assert(s[w] == fp[q]);
            } else if q < fp.len() + nb.len() {
                assert(f[q] == nb[q - fp.len()]);
            } else {
                assert(f[q] == s[s.len() - 1]);
            }
        }
        assert forall|k: int| 0 <= k < s.len() implies f.contains(#[trigger] s[k]) by {
            if k < s.len() - 1 {
                assert(fp.contains(sp[k]));
                let w = choose|w: int| 0 <= w < fp.len() && fp[w] == sp[k];
                assert(f[w] == s[k]);
            } else {
                assert(f[f.len() - 1] == s[k]);
            }
        }
    }
}

/// Filling an already sorted, gap-free sequence changes nothing.
proof fn lemma_fill_identity(s: Seq<OptionalLedgerPoint>)
    requires
        sorted_points(s),
        filled(s),
    ensures
        fill_spec(s) == s,
    decreases s.len(),
{
    if s.len() <= 1 {
    } else {
        lemma_drop_last_props(s);
        lemma_fill_identity(s.drop_last());
        assert(nulls_between(s[s.len() - 2], s.last()) =~= Seq::<OptionalLedgerPoint>::empty());
        assert(fill_spec(s) =~= s);
    }
}

/// Content transfer from the fill of a sorted permutation back to the raw
/// input: real points come from the input, and no input point is lost.
proof fn lemma_gap_fill_content(
    sv: Seq<OptionalLedgerPoint>,
    pts: Seq<OptionalLedgerPoint>,
    rv: Seq<OptionalLedgerPoint>,
)
    requires
        rv == fill_spec(sv),
        sv.to_multiset() == pts.to_multiset(),
    ensures
        forall|q: int| 0 <= q < rv.len() && (#[trigger] rv[q]).value is Some ==> pts.contains(
            rv[q],
        ),
        forall|k: int| 0 <= k < pts.len() ==> rv.contains(#[trigger] pts[k]),
{
    lemma_fill_content(sv);
    crate::order::lemma_multiset_eq_contains(sv, pts);
    assert forall|q: int|
        0 <= q < rv.len() && (#[trigger] rv[q]).value is Some implies pts.contains(rv[q]) by {
        assert(sv.contains(rv[q]));
    }
    assert forall|k: int| 0 <= k < pts.len() implies rv.contains(#[trigger] pts[k]) by {
        assert(sv.contains(pts[k]));
        let w = choose|w: int| 0 <= w < sv.len() && sv[w] == pts[k];
        assert(rv.contains(sv[w]));
    }
}

/// Sorts by `(year, tag)` and inserts an explicit null point for every year
/// a tag's series skips between two of its consecutive points.
///
/// The first clause pins the result exactly: it is the fill of the stable
/// sort of the input, so a null appears precisely once for each skipped
/// year between two same-tag points adjacent in sorted order, nothing else
/// is added, and the real points are exactly the input's. The remaining
/// clauses make the fill idempotent: the result is sorted and filled, and a
/// sorted, filled input is returned unchanged — so a second run preserves
/// inserted nulls and real values exactly.
#[verifier::rlimit(100)]
#[verifier::spinoff_prover]
pub fn gap_fill(points: &Vec<OptionalLedgerPoint>) -> (r: Vec<OptionalLedgerPoint>)
    ensures
        r@ == fill_spec(sort_spec(points@)),
        sorted_points(r@),
        filled(r@),
        sorted_points(points@) && filled(points@) ==> r@ == points@,
        forall|i: int| 0 <= i < r@.len() && (#[trigger] r@[i]).value is Some ==> points@.contains(
            r@[i],
        ),
        forall|i: int| 0 <= i < points@.len() ==> r@.contains(#[trigger] points@[i]),
{
    let s = sort_points(points);
    let ghost sv = s@;
    let mut r: Vec<OptionalLedgerPoint> = Vec::new();
    let mut i: usize = 0;
    while i < s.len()
        invariant
            sv == s@,
            sorted_points(sv),
            i <= sv.len(),
            r@ == fill_spec(sv.take(i as int)),
        decreases sv.len() - i,
    {
        let x = s[i];
        if i > 0 {
            let prev = s[i - 1];
            if prev.tag.code == x.tag.code && (x.year as u32) > (prev.year as u32) + 1 {
                let mut y: u16 = prev.year + 1;
                proof {
                    assert(r@ =~= fill_spec(sv.take(i as int)) + nulls_between(prev, x).take(0int));
                }
                while y < x.year
                    invariant
                        sv == s@,
                        0 < i < sv.len(),
                        prev == sv[i - 1],
                        x == sv[i as int],
                        prev.tag == x.tag,
                        prev.year + 1 < x.year,
                        prev.year < y <= x.year,
                        r@ == fill_spec(sv.take(i as int)) + nulls_between(prev, x).take(
                            y - prev.year - 1,
                        ),
                    decreases x.year - y,
                {
                    r.push(OptionalLedgerPoint { tag: x.tag, year: y, value: None });
                    proof {
                        assert(nulls_between(prev, x)[y - prev.year - 1] == (OptionalLedgerPoint {
                            tag: x.tag,
                            year: y,
                            value: None,
                        }));
                        assert(r@ =~= fill_spec(sv.take(i as int)) + nulls_between(prev, x).take(
                            y + 1 - prev.year - 1,
                        ));
                    }
                    y = y + 1;
                }
            }
        }
        r.push(x);
        proof {
            assert(sv.take(i + 1).drop_last() == sv.take(i as int));
            assert(sv.take(i + 1).last() == sv[i as int]);
            if i == 0 {
                assert(r@ =~= fill_spec(sv.take(1int)));
            } else {
                assert(sv.take(i + 1)[i - 1] == sv[i - 1]);
                if sv[i - 1].tag == sv[i as int].tag && sv[i as int].year > sv[i - 1].year + 1 {
                    assert(nulls_between(sv[i - 1], sv[i as int]).take(
                        sv[i as int].year - sv[i - 1].year - 1,
                    ) =~= nulls_between(sv[i - 1], sv[i as int]));
                    assert(r@ =~= fill_spec(sv.take(i as int)) + nulls_between(
                        sv[i - 1],
                        sv[i as int],
                    ) + seq![sv[i as int]]);
                } else {
                    assert(nulls_between(sv[i - 1], sv[i as int]) =~= Seq::<
                        OptionalLedgerPoint,
                    >::empty());
                    assert(r@ =~= fill_spec(sv.take(i as int)) + nulls_between(
                        sv[i - 1],
                        sv[i as int],
                    ) + seq![sv[i as int]]);
                }
                assert(r@ == fill_spec(sv.take(i + 1)));
            }
        }
        i = i + 1;
    }
    proof {
        assert(sv.take(sv.len() as int) == sv);
        lemma_fill_sorted_filled(sv);
        lemma_gap_fill_content(sv, points@, r@);
        if sorted_points(points@) && filled(points@) {
            assert(sv == points@);
            lemma_fill_identity(sv);
        }
    }
    r
}

/// Which AI-controlled countries a tag filter admits (human-controlled
/// countries always match).
#[derive(Clone, Copy, PartialEq, Eq, Structural, Debug)]
pub enum AiTagsState {
    /// Every AI country.
    All,
    /// AI countries that still own at least one city.
    Alive,
    /// AI great powers only.
    Great,
    /// No AI countries.
    NoAi,
}

/// The declarative tag filter a caller hands to the ledger queries.
#[derive(Clone, Copy, PartialEq, Eq, Structural, Debug)]
pub struct TagFilterPayload {
    pub ai: AiTagsState,
}

/// The statistic a ledger query asks for.
#[derive(Clone, Copy, PartialEq, Eq, Structural, Debug)]
pub enum Statistic {
    Income,
    NationSize,
    Score,
    Inflation,
}

/// Presentation limit on how many tags one chart may carry.
pub const LEDGER_TAG_LIMIT: usize = 30;

pub open spec fn country_matches(c: CountryRecord, ai: AiTagsState) -> bool {
    c.human || match ai {
        AiTagsState::All => true,
        AiTagsState::Alive => c.num_of_cities > 0,
        AiTagsState::Great => c.is_great_power,
        AiTagsState::NoAi => false,
    }
}

/// The stored tags of the countries a filter admits, in save order.
pub open spec fn matching_seq(cs: Seq<CountryRecord>, ai: AiTagsState) -> Seq<Tag>
    decreases cs.len(),
{
    if cs.len() == 0 {
        Seq::<Tag>::empty()
    } else {
        let rest = matching_seq(cs.drop_last(), ai);
        if country_matches(cs.last(), ai) {
            rest.push(cs.last().stored_tag)
        } else {
            rest
        }
    }
}

/// More than one distinct player country exists.
pub open spec fn multiple_players(players: Seq<PlayerRecord>) -> bool {
    exists|i: int, j: int| 0 <= i < j < players.len() && players[i].tag != players[j].tag
}

/// The narrower fallback filter used when a chart would overflow: great
/// powers only when multiple player countries exist, else no AI countries.
pub open spec fn fallback_ai(players: Seq<PlayerRecord>) -> AiTagsState {
    if multiple_players(players) {
        AiTagsState::Great
    } else {
        AiTagsState::NoAi
    }
}

/// The tiered degrade-on-overflow policy: the filter's own tag set if it
/// fits the limit; otherwise its intersection with the fallback filter's
/// set; otherwise, if that intersection is empty, an arbitrary truncation
/// of the original set to the limit. The policy exists for chart
/// readability only.
pub open spec fn filtered_tags_spec(save: SaveModel, ai: AiTagsState, limit: int) -> Seq<Tag> {
    let base = matching_seq(save.countries@, ai);
    if base.len() <= limit {
        base
    } else {
        let narrowed = matching_seq(save.countries@, fallback_ai(save.players@));
        let inter = base.filter(|t: Tag| narrowed.contains(t));
        if inter.len() > 0 {
            inter
        } else {
            base.take(limit)
        }
    }
}

/// Whether a tag filter admits one country.
pub fn country_matches_pub(c: &CountryRecord, ai: AiTagsState) -> (r: bool)
    ensures
        r == country_matches(*c, ai),
{
    c.human || match ai {
        AiTagsState::All => true,
        AiTagsState::Alive => c.num_of_cities > 0,
        AiTagsState::Great => c.is_great_power,
        AiTagsState::NoAi => false,
    }
}

/// Resolves a filter into its concrete tag set.
pub fn matching_tags(save: &SaveModel, ai: AiTagsState) -> (r: Vec<Tag>)
    ensures
        r@ == matching_seq(save.countries@, ai),
{
    let mut r: Vec<Tag> = Vec::new();
    let mut i: usize = 0;
    while i < save.countries.len()
        invariant
            i <= save.countries@.len(),
            r@ == matching_seq(save.countries@.take(i as int), ai),
        decreases save.countries@.len() - i,
    {
        proof {
            assert(save.countries@.take(i + 1).drop_last() == save.countries@.take(i as int));
            assert(save.countries@.take(i + 1).last() == save.countries@[i as int]);
        }
        if country_matches_pub(&save.countries[i], ai) {
            r.push(save.countries[i].stored_tag);
        }
        i = i + 1;
    }
    proof {
        assert(save.countries@.take(save.countries@.len() as int) == save.countries@);
    }
    r
}

fn vec_contains_tag(v: &Vec<Tag>, t: Tag) -> (r: bool)
    ensures
        r == v@.contains(t),
{
    let mut i: usize = 0;
    while i < v.len()
        invariant
            i <= v@.len(),
            forall|k: int| 0 <= k < i ==> v@[k] != t,
        decreases v@.len() - i,
    {
        if v[i].code == t.code {
            return true;
        }
        i = i + 1;
    }
    false
}

fn multiple_players_exec(players: &Vec<PlayerRecord>) -> (r: bool)
    ensures
        r == multiple_players(players@),
{
    if players.len() == 0 {
        return false;
    }
    let first = players[0].tag;
    let mut i: usize = 1;
    while i < players.len()
        invariant
            players@.len() > 0,
            first == players@[0].tag,
            1 <= i <= players@.len(),
            forall|k: int| 0 <= k < i ==> (#[trigger] players@[k]).tag == first,
        decreases players@.len() - i,
    {
        if players[i].tag.code != first.code {
            return true;
        }
        i = i + 1;
    }
    false
}

/// Evaluates a tag filter under the presentation limit, applying the tiered
/// degrade-on-overflow policy of [`filtered_tags_spec`].
pub fn filter_stored_tags(save: &SaveModel, payload: &TagFilterPayload, limit: usize) -> (r: Vec<
    Tag,
>)
    ensures
        r@ == filtered_tags_spec(*save, payload.ai, limit as int),
{
    let base = matching_tags(save, payload.ai);
    if base.len() <= limit {
        return base;
    }
    let narrowed = matching_tags(save, if multiple_players_exec(&save.players) {
        AiTagsState::Great
    } else {
        AiTagsState::NoAi
    });
    let ghost pred = |t: Tag| narrowed@.contains(t);
    let mut inter: Vec<Tag> = Vec::new();
    let mut i: usize = 0;
    proof {
        assert(base@.take(0int) == Seq::<Tag>::empty());
        reveal_with_fuel(Seq::filter, 2);
    }
    while i < base.len()
        invariant
            i <= base@.len(),
            inter@ == base@.take(i as int).filter(pred),
            pred == (|t: Tag| narrowed@.contains(t)),
        decreases base@.len() - i,
    {
        proof {
            assert(base@.take(i + 1).drop_last() == base@.take(i as int));
            assert(base@.take(i + 1).last() == base@[i as int]);
            reveal_with_fuel(Seq::filter, 2);
        }
        if vec_contains_tag(&narrowed, base[i]) {
            inter.push(base[i]);
        }
        i = i + 1;
    }
    proof {
        assert(base@.take(base@.len() as int) == base@);
    }
    if inter.len() > 0 {
        inter
    } else {
        let mut trunc: Vec<Tag> = Vec::new();
        let mut k: usize = 0;
        while k < limit
            invariant
                k <= limit,
                limit < base@.len(),
                trunc@ == base@.take(k as int),
            decreases limit - k,
        {
            trunc.push(base[k]);
            proof {
                assert(base@.take(k + 1) == base@.take(k as int).push(base@[k as int]));
            }
            k = k + 1;
        }
        trunc
    }
}

/// The display name the localization table gives a tag: the first matching
/// entry's name, or the empty string for tags the table lacks.
pub open spec fn display_name_spec(table: Seq<TagName>, t: Tag) -> Seq<char>
    decreases table.len(),
{
    if table.len() == 0 {
        Seq::<char>::empty()
    } else if table[0].tag == t {
        table[0].name@
    } else {
        display_name_spec(table.drop_first(), t)
    }
}

/// Looks a tag's display name up in the save's localization table.
pub fn display_name(table: &Vec<TagName>, t: Tag) -> (r: String)
    ensures
        r@ == display_name_spec(table@, t),
{
    let ghost tv = table@;
    proof {
        assert(tv.skip(0) == tv);
    }
    let mut i: usize = 0;
    while i < table.len()
        invariant
            tv == table@,
            i <= tv.len(),
            display_name_spec(tv, t) == display_name_spec(tv.skip(i as int), t),
        decreases tv.len() - i,
    {
        proof {
            assert(tv.skip(i as int)[0] == tv[i as int]);
            assert(tv.skip(i as int).drop_first() == tv.skip(i + 1));
        }
        if table[i].tag.code == t.code {
            return table[i].name.clone();
        }
        i = i + 1;
    }
    proof {
        assert(tv.skip(tv.len() as int).len() == 0);
    }
    String::new()
}

/// The name a legend's localization list gives a tag: the first matching
/// entry's name, or the empty string.
pub open spec fn loc_name(loc: Seq<LocalizedTag>, t: Tag) -> Seq<char>
    decreases loc.len(),
{
    if loc.len() == 0 {
        Seq::<char>::empty()
    } else if loc[0].tag == t {
        loc[0].name@
    } else {
        loc_name(loc.drop_first(), t)
    }
}

/// Legend order: by year, then by localized display name.
pub open spec fn legend_le(
    loc: Seq<LocalizedTag>,
    a: OptionalLedgerPoint,
    b: OptionalLedgerPoint,
) -> bool {
    a.year < b.year || (a.year == b.year && bytes_le(
        str_bytes(loc_name(loc, a.tag)),
        str_bytes(loc_name(loc, b.tag)),
    ))
}

pub open spec fn sorted_legend(loc: Seq<LocalizedTag>, s: Seq<OptionalLedgerPoint>) -> bool {
    forall|i: int| #![trigger s[i]] 0 <= i && i + 1 < s.len() ==> legend_le(loc, s[i], s[i + 1])
}

fn find_loc(loc: &Vec<LocalizedTag>, t: Tag) -> (r: Option<usize>)
    ensures
        match r {
            Some(i) => 0 <= i < loc@.len() && loc@[i as int].tag == t && loc_name(loc@, t)
                == loc@[i as int].name@,
            None => loc_name(loc@, t) == Seq::<char>::empty(),
        },
{
    let ghost lv = loc@;
    proof {
        assert(lv.skip(0) == lv);
    }
    let mut i: usize = 0;
    while i < loc.len()
        invariant
            lv == loc@,
            i <= lv.len(),
            loc_name(lv, t) == loc_name(lv.skip(i as int), t),
        decreases lv.len() - i,
    {
        proof {
            assert(lv.skip(i as int)[0] == lv[i as int]);
            assert(lv.skip(i as int).drop_first() == lv.skip(i + 1));
        }
        if loc[i].tag.code == t.code {
            return Some(i);
        }
        i = i + 1;
    }
    proof {
        assert(lv.skip(lv.len() as int).len() == 0);
    }
    None
}

fn legend_le_exec(loc: &Vec<LocalizedTag>, a: &OptionalLedgerPoint, b: &OptionalLedgerPoint) -> (r:
    bool)
    ensures
        r == legend_le(loc@, *a, *b),
{
    if a.year < b.year {
        return true;
    }
    if a.year > b.year {
        return false;
    }
    match find_loc(loc, a.tag) {
        None => true,
        Some(i) => match find_loc(loc, b.tag) {
            None => loc[i].name.as_str().as_bytes().len() == 0,
            Some(j) => str_le(&loc[i].name, &loc[j].name),
        },
    }
}

/// Sorts chart points into legend order (year, then localized name),
/// keeping the multiset of points.
fn sort_legend(v: &Vec<OptionalLedgerPoint>, loc: &Vec<LocalizedTag>) -> (r: Vec<
    OptionalLedgerPoint,
>)
    ensures
        sorted_legend(loc@, r@),
        r@.to_multiset() == v@.to_multiset(),
{
    broadcast use vstd::seq_lib::group_to_multiset_ensures;

    let mut out: Vec<OptionalLedgerPoint> = Vec::new();
    let mut i: usize = 0;
    proof {
        assert(v@.take(0int) == Seq::<OptionalLedgerPoint>::empty());
        assert(out@.to_multiset() =~= v@.take(0int).to_multiset());
    }
    while i < v.len()
        invariant
            i <= v@.len(),
            sorted_legend(loc@, out@),
            out@.to_multiset() == v@.take(i as int).to_multiset(),
        decreases v@.len() - i,
    {
        let x = v[i];
        let mut j: usize = 0;
        while j < out.len() && legend_le_exec(loc, &out[j], &x)
            invariant
                j <= out@.len(),
                forall|k: int| 0 <= k < j ==> legend_le(loc@, #[trigger] out@[k], x),
            decreases out@.len() - j,
        {
            j = j + 1;
        }
        let ghost old_out = out@;
        out.insert(j, x);
        proof {
            lemma_insert_to_multiset(old_out, j as int, x);
            old_out.insert_ensures(j as int, x);
            assert(v@.take(i + 1) == v@.take(i as int).push(x));
            vstd::seq_lib::to_multiset_build::<OptionalLedgerPoint>(v@.take(i as int), x);
            assert(out@.to_multiset() =~= v@.take(i + 1).to_multiset());
            if (j as int) < old_out.len() {
                lemma_bytes_le_total(
                    str_bytes(loc_name(loc@, old_out[j as int].tag)),
                    str_bytes(loc_name(loc@, x.tag)),
                );
            }
            assert forall|k: int| #![trigger out@[k]] 0 <= k && k + 1 < out@.len() implies legend_le(
                loc@,
                out@[k],
                out@[k + 1],
            ) by {
                if k + 1 < j {
                    assert(out@[k] == old_out[k]);
                    assert(out@[k + 1] == old_out[k + 1]);
                } else if k + 1 == j {
                    assert(out@[k] == old_out[k]);
                    assert(out@[k + 1] == x);
                } else if k == j {
                    assert(out@[k] == x);
                    assert(out@[k + 1] == old_out[k]);
                    assert(!legend_le(loc@, old_out[j as int], x));
                } else {
                    assert(out@[k] == old_out[k - 1]);
                    assert(out@[k + 1] == old_out[k]);
                }
            }
        }
        i = i + 1;
    }
    proof {
        assert(v@.take(v@.len() as int) == v@);
    }
    out
}

pub open spec fn jan1(year: u16) -> Date {
    Date { year, month: 1, day: 1 }
}

/// The tag a sample of this identity displays under: the tag the identity
/// held at the start of the sampled year, or its stored tag when its
/// timeline does not cover that date.
pub open spec fn point_tag(id: Identity, year: u16) -> Tag {
    match held_at_spec(id.epochs@, jan1(year)) {
        Some(t) => t,
        None => id.stored,
    }
}

/// The chart points one identity's statistic series yields.
pub open spec fn points_as_optional(id: Identity, series: Seq<StatisticPoint>) -> Seq<
    OptionalLedgerPoint,
> {
    Seq::new(
        series.len(),
        |k: int|
            OptionalLedgerPoint {
                tag: point_tag(id, series[k].year),
                year: series[k].year,
                value: Some(series[k].value),
            },
    )
}

pub open spec fn series_of(c: CountryRecord, stat: Statistic) -> Seq<StatisticPoint> {
    match stat {
        Statistic::Income => c.ledger.income@,
        Statistic::NationSize => c.ledger.nation_size@,
        Statistic::Score => c.ledger.score@,
        Statistic::Inflation => c.ledger.inflation@,
    }
}

fn series_ref<'a>(c: &'a CountryRecord, stat: Statistic) -> (r: &'a Vec<StatisticPoint>)
    ensures
        r@ == series_of(*c, stat),
{
    match stat {
        Statistic::Income => &c.ledger.income,
        Statistic::NationSize => &c.ledger.nation_size,
        Statistic::Score => &c.ledger.score,
        Statistic::Inflation => &c.ledger.inflation,
    }
}

/// Turns one identity's statistic series into chart points, attributing
/// each sample to the tag the identity held in that year.
pub fn identity_points(id: &Identity, series: &Vec<StatisticPoint>) -> (r: Vec<OptionalLedgerPoint>)
    requires
        epochs_dates_wf(id.epochs@),
    ensures
        r@ == points_as_optional(*id, series@),
{
    let mut r: Vec<OptionalLedgerPoint> = Vec::new();
    let mut k: usize = 0;
    while k < series.len()
        invariant
            epochs_dates_wf(id.epochs@),
            k <= series@.len(),
            r@.len() == k,
            forall|q: int| 0 <= q < k ==> r@[q] == points_as_optional(*id, series@)[q],
        decreases series@.len() - k,
    {
        let p = series[k];
        let d = Date::new(p.year, 1, 1);
        let tag = match tag_held_at(id, d) {
            Some(t) => t,
            None => id.stored,
        };
        r.push(OptionalLedgerPoint { tag, year: p.year, value: Some(p.value) });
        k = k + 1;
    }
    proof {
        assert(r@ =~= points_as_optional(*id, series@));
    }
    r
}

/// The chart points collected for a list of filtered stored tags: each tag
/// that names a stored identity contributes its whole statistic series.
pub open spec fn collected_spec(
    save: SaveModel,
    ids: Seq<Identity>,
    tags: Seq<Tag>,
    stat: Statistic,
) -> Seq<OptionalLedgerPoint>
    decreases tags.len(),
{
    if tags.len() == 0 {
        Seq::<OptionalLedgerPoint>::empty()
    } else {
        let rest = collected_spec(save, ids, tags.drop_first(), stat);
        match find_stored_spec(ids, tags[0]) {
            Some(i) => if 0 <= i < save.countries@.len() {
                points_as_optional(ids[i], series_of(save.countries@[i], stat)) + rest
            } else {
                rest
            },
            None => rest,
        }
    }
}

/// Collects the chart points of every filtered tag's stored identity.
pub fn collect_points(
    save: &SaveModel,
    index: &IdentityIndex,
    tags: &Vec<Tag>,
    stat: Statistic,
) -> (r: Vec<OptionalLedgerPoint>)
    requires
        index.wf(),
        index.corresponds(*save),
    ensures
        r@ == collected_spec(*save, index.identities@, tags@, stat),
{
    let ghost tv = tags@;
    let ghost ids = index.identities@;
    proof {
        assert(tv.skip(0) == tv);
    }
    let mut r: Vec<OptionalLedgerPoint> = Vec::new();
    let mut i: usize = 0;
    while i < tags.len()
        invariant
            index.wf(),
            index.corresponds(*save),
            tv == tags@,
            ids == index.identities@,
            i <= tv.len(),
            collected_spec(*save, ids, tv, stat) == r@ + collected_spec(
                *save,
                ids,
                tv.skip(i as int),
                stat,
            ),
        decreases tv.len() - i,
    {
        proof {
            assert(tv.skip(i as int)[0] == tv[i as int]);
            assert(tv.skip(i as int).drop_first() == tv.skip(i + 1));
            lemma_find_stored_in_range(ids, tv[i as int]);
        }
        match index.find_stored(tags[i]) {
            Some(ii) => {
                let mut pts = identity_points(
                    &index.identities[ii],
                    series_ref(&save.countries[ii], stat),
                );
                let ghost old_r = r@;
                r.append(&mut pts);
                proof {
                    assert(r@ == old_r + points_as_optional(
                        ids[ii as int],
                        series_of(save.countries@[ii as int], stat),
                    ));
                }
            },
            None => {},
        }
        i = i + 1;
    }
    proof {
        assert(tv.skip(tv.len() as int).len() == 0);
        assert(collected_spec(*save, ids, tv.skip(tv.len() as int), stat) == Seq::<
            OptionalLedgerPoint,
        >::empty());
        assert(r@ + Seq::<OptionalLedgerPoint>::empty() == r@);
    }
    r
}

/// An entry exists for this tag.
pub open spec fn loc_has_tag(loc: Seq<LocalizedTag>, t: Tag) -> bool {
    exists|k: int| 0 <= k < loc.len() && (#[trigger] loc[k]).tag == t
}

/// Some chart point carries this tag.
pub open spec fn tag_in_points(pts: Seq<OptionalLedgerPoint>, t: Tag) -> bool {
    exists|k: int| 0 <= k < pts.len() && (#[trigger] pts[k]).tag == t
}

fn loc_contains(loc: &Vec<LocalizedTag>, t: Tag) -> (r: bool)
    ensures
        r == loc_has_tag(loc@, t),
{
    let mut i: usize = 0;
    while i < loc.len()
        invariant
            i <= loc@.len(),
            forall|k: int| 0 <= k < i ==> (#[trigger] loc@[k]).tag != t,
        decreases loc@.len() - i,
    {
        if loc[i].tag.code == t.code {
            return true;
        }
        i = i + 1;
    }
    false
}

/// Collects the localization entries for every tag the points mention:
/// one entry per distinct tag, named from the save's localization table,
/// and none for tags the points lack.
pub fn collect_localization(save: &SaveModel, pts: &Vec<OptionalLedgerPoint>) -> (r: Vec<
    LocalizedTag,
>)
    ensures
        forall|i: int| 0 <= i < r@.len() ==> (#[trigger] r@[i]).name@ == display_name_spec(
            save.tag_names@,
            r@[i].tag,
        ),
        forall|i: int, j: int| 0 <= i < j < r@.len() ==> r@[i].tag != r@[j].tag,
        forall|i: int| 0 <= i < pts@.len() ==> loc_has_tag(r@, (#[trigger] pts@[i]).tag),
        forall|i: int| 0 <= i < r@.len() ==> tag_in_points(pts@, (#[trigger] r@[i]).tag),
{
    let mut r: Vec<LocalizedTag> = Vec::new();
    let mut i: usize = 0;
    while i < pts.len()
        invariant
            i <= pts@.len(),
            forall|q: int| 0 <= q < r@.len() ==> (#[trigger] r@[q]).name@ == display_name_spec(
                save.tag_names@,
                r@[q].tag,
            ),
            forall|q: int, w: int| 0 <= q < w < r@.len() ==> r@[q].tag != r@[w].tag,
            forall|q: int| 0 <= q < i ==> loc_has_tag(r@, (#[trigger] pts@[q]).tag),
            forall|q: int| 0 <= q < r@.len() ==> tag_in_points(pts@, (#[trigger] r@[q]).tag),
        decreases pts@.len() - i,
    {
        let t = pts[i].tag;
        if !loc_contains(&r, t) {
            let ghost old_r = r@;
            r.push(LocalizedTag { tag: t, name: display_name(&save.tag_names, t) });
            proof {
                assert forall|q: int| 0 <= q < i implies loc_has_tag(r@, (#[trigger] pts@[q]).tag) by {
                    let w = choose|w: int| 0 <= w < old_r.len() && old_r[w].tag == pts@[q].tag;
                    assert(r@[w].tag == pts@[q].tag);
                }
                assert(r@[r@.len() - 1].tag == pts@[i as int].tag);
                assert(tag_in_points(pts@, r@[r@.len() - 1].tag));
            }
        }
        i = i + 1;
    }
    r
}

/// What a completed ledger query guarantees: the points are, up to legend
/// order, exactly the gap fill of the stably sorted collected samples;
/// every real point is a collected sample of a filtered identity and every
/// collected sample appears; the legend names every tag the points mention,
/// once, with its display name, and names nothing else.
pub open spec fn ledger_result_ok(
    save: SaveModel,
    ids: Seq<Identity>,
    payload: TagFilterPayload,
    stat: Statistic,
    r: LocalizedLedger,
) -> bool {
    let collected = collected_spec(
        save,
        ids,
        filtered_tags_spec(save, payload.ai, LEDGER_TAG_LIMIT as int),
        stat,
    );
    &&& sorted_legend(r.localization@, r.points@)
    &&& r.points@.to_multiset() == fill_spec(sort_spec(collected)).to_multiset()
    &&& forall|i: int|
        0 <= i < r.points@.len() && (#[trigger] r.points@[i]).value is Some ==> collected.contains(
            r.points@[i],
        )
    &&& forall|i: int| 0 <= i < collected.len() ==> r.points@.contains(#[trigger] collected[i])
    &&& forall|i: int| 0 <= i < r.localization@.len() ==> (#[trigger] r.localization@[i]).name@
        == display_name_spec(save.tag_names@, r.localization@[i].tag)
    &&& forall|i: int, j: int| 0 <= i < j < r.localization@.len() ==> r.localization@[i].tag
        != r.localization@[j].tag
    &&& forall|i: int| 0 <= i < r.points@.len() ==> loc_has_tag(
        r.localization@,
        (#[trigger] r.points@[i]).tag,
    )
    &&& forall|i: int| 0 <= i < r.localization@.len() ==> tag_in_points(
        r.points@,
        (#[trigger] r.localization@[i]).tag,
    )
}

/// Builds one gap-filled, localized annual ledger: evaluates the tag filter
/// under the presentation limit, collects every filtered identity's samples,
/// fills year gaps with explicit nulls, and orders the result by year and
/// localized name for stable legends.
#[verifier::rlimit(100)]
pub fn annual_ledger(
    save: &SaveModel,
    index: &IdentityIndex,
    payload: &TagFilterPayload,
    stat: Statistic,
) -> (r: LocalizedLedger)
    requires
        index.wf(),
        index.corresponds(*save),
    ensures
        ledger_result_ok(*save, index.identities@, *payload, stat, r),
{
    let tags = filter_stored_tags(save, payload, LEDGER_TAG_LIMIT);
    let pts = collect_points(save, index, &tags, stat);
    let filled_pts = gap_fill(&pts);
    let loc = collect_localization(save, &filled_pts);
    let points = sort_legend(&filled_pts, &loc);
    proof {
        let ghost collected = collected_spec(
            *save,
            index.identities@,
            filtered_tags_spec(*save, payload.ai, LEDGER_TAG_LIMIT as int),
            stat,
        );
        assert(pts@ == collected);
        assert(points@.to_multiset() == fill_spec(sort_spec(collected)).to_multiset());
        crate::order::lemma_multiset_eq_contains(points@, filled_pts@);
        assert forall|i: int|
            0 <= i < loc@.len() implies tag_in_points(points@, (#[trigger] loc@[i]).tag) by {
            let k = choose|k: int| 0 <= k < filled_pts@.len() && (#[trigger] filled_pts@[k]).tag
                == loc@[i].tag;
            assert(points@.contains(filled_pts@[k]));
            let w = choose|w: int| 0 <= w < points@.len() && points@[w] == filled_pts@[k];
            assert(points@[w].tag == loc@[i].tag);
        }
        assert forall|i: int|
            0 <= i < points@.len() && (#[trigger] points@[i]).value is Some implies collected
            .contains(points@[i]) by {
            assert(filled_pts@.contains(points@[i]));
            let w = choose|w: int| 0 <= w < filled_pts@.len() && filled_pts@[w] == points@[i];
            assert(pts@.contains(filled_pts@[w]));
        }
        assert forall|i: int|
            0 <= i < collected.len() implies points@.contains(#[trigger] collected[i]) by {
            assert(filled_pts@.contains(pts@[i]));
        }
        assert forall|i: int|
            0 <= i < points@.len() implies loc_has_tag(loc@, (#[trigger] points@[i]).tag) by {
            assert(filled_pts@.contains(points@[i]));
            let w = choose|w: int| 0 <= w < filled_pts@.len() && filled_pts@[w] == points@[i];
            assert(loc_has_tag(loc@, filled_pts@[w].tag));
        }
    }
    LocalizedLedger { points, localization: loc }
}

/// The annual income ledger for the filtered tags.
pub fn get_annual_income_ledger(save: &SaveModel, index: &IdentityIndex, payload: &TagFilterPayload)
    -> (r: LocalizedLedger)
    requires
        index.wf(),
        index.corresponds(*save),
    ensures
        ledger_result_ok(*save, index.identities@, *payload, Statistic::Income, r),
{
    annual_ledger(save, index, payload, Statistic::Income)
}

/// The annual nation-size ledger for the filtered tags.
pub fn get_annual_nation_size_ledger(
    save: &SaveModel,
    index: &IdentityIndex,
    payload: &TagFilterPayload,
) -> (r: LocalizedLedger)
    requires
        index.wf(),
        index.corresponds(*save),
    ensures
        ledger_result_ok(*save, index.identities@, *payload, Statistic::NationSize, r),
{
    annual_ledger(save, index, payload, Statistic::NationSize)
}

/// The annual score ledger for the filtered tags.
pub fn get_annual_score_ledger(save: &SaveModel, index: &IdentityIndex, payload: &TagFilterPayload)
    -> (r: LocalizedLedger)
    requires
        index.wf(),
        index.corresponds(*save),
    ensures
        ledger_result_ok(*save, index.identities@, *payload, Statistic::Score, r),
{
    annual_ledger(save, index, payload, Statistic::Score)
}

/// The annual inflation ledger for the filtered tags.
pub fn get_annual_inflation_ledger(
    save: &SaveModel,
    index: &IdentityIndex,
    payload: &TagFilterPayload,
) -> (r: LocalizedLedger)
    requires
        index.wf(),
        index.corresponds(*save),
    ensures
        ledger_result_ok(*save, index.identities@, *payload, Statistic::Inflation, r),
{
    annual_ledger(save, index, payload, Statistic::Inflation)
}

} // verus!
