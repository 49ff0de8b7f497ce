//! The building history reconstructor: expands sparse per-province
//! construction/demolition toggle events into dense annual per-building
//! counts spanning the campaign's year range.
//!
//! Only toggles whose building identifier the caller recognizes as a real
//! building count; other boolean flags in the same event stream are ignored.
//! Counts are event-sourced: the count of building `b` in year `y` is the
//! net of all recognized toggles for `b` dated in or before `y`.

use crate::model::{BuildingEvent, ProvinceRecord, SaveModel};
use crate::order::{
    bytes_le, lemma_bytes_le_antisym, lemma_bytes_le_total, lemma_bytes_le_trans,
    lemma_insert_to_multiset, lemma_multiset_eq_contains, lemma_seq_sum_abs, lemma_seq_sum_concat,
    lemma_seq_sum_multiset, lemma_seq_sum_pointwise, lemma_seq_sum_push, lemma_seq_sum_remove,
    lemma_seq_sum_subrange_le, lemma_seq_sum_zero, seq_sum, str_bytes, str_le,
};
use vstd::prelude::*;

verus! {

/// One recognized building toggle, flattened out of a province's event log.
#[derive(Clone, Debug)]
pub struct BuildingToggle {
    pub building: String,
    pub year: u16,
    /// `true` for construction (+1), `false` for demolition (-1).
    pub construction: bool,
}

/// The aggregated net delta for one `(building, year)` key.
#[derive(Clone, Debug)]
pub struct DeltaEntry {
    pub building: String,
    pub year: u16,
    pub delta: i32,
}

/// One row of the dense annual series.
#[derive(Clone, PartialEq, Debug)]
pub struct BuildingEntry {
    pub building: String,
    pub year: u16,
    pub count: i32,
}

/// Weight of a toggle towards building `b`'s count through year `y`.
pub open spec fn toggle_through(b: Seq<char>, y: int) -> spec_fn(BuildingToggle) -> int {
    |t: BuildingToggle|
        if t.building@ == b && t.year <= y {
            if t.construction {
                1int
            } else {
                -1int
            }
        } else {
            0int
        }
}

/// The net count of building `b` through year `y`: constructions minus
/// demolitions dated in or before `y`.
pub open spec fn net_through(ts: Seq<BuildingToggle>, b: Seq<char>, y: int) -> int {
    seq_sum(ts, toggle_through(b, y))
}

/// Weight of a delta entry towards building `b`'s count through year `y`.
pub open spec fn entry_through(b: Seq<char>, y: int) -> spec_fn(DeltaEntry) -> int {
    |e: DeltaEntry|
        if e.building@ == b && e.year <= y {
            e.delta as int
        } else {
            0int
        }
}

pub open spec fn entry_cum(es: Seq<DeltaEntry>, b: Seq<char>, y: int) -> int {
    seq_sum(es, entry_through(b, y))
}

/// Indicator weight: one for rows of `(b, y)`.
pub open spec fn row_weight(b: Seq<char>, y: int) -> spec_fn(BuildingEntry) -> int {
    |e: BuildingEntry|
        if e.building@ == b && e.year == y {
            1int
        } else {
            0int
        }
}

/// How many rows a series holds for `(b, y)`.
pub open spec fn row_count(out: Seq<BuildingEntry>, b: Seq<char>, y: int) -> int {
    seq_sum(out, row_weight(b, y))
}

/// The identifier is one of the recognized buildings.
pub open spec fn known_has(known: Seq<String>, b: Seq<char>) -> bool {
    exists|i: int| 0 <= i < known.len() && (#[trigger] known[i])@ == b
}

fn known_contains(known: &Vec<String>, b: &String) -> (r: bool)
    ensures
        r == known_has(known@, b@),
{
    let mut i: usize = 0;
    while i < known.len()
        invariant
            i <= known@.len(),
            forall|k: int| 0 <= k < i ==> (#[trigger] known@[k])@ != b@,
        decreases known@.len() - i,
    {
        if known[i] == *b {
            return true;
        }
        i = i + 1;
    }
    false
}

/// The recognized toggles of one province's event log, in log order.
pub open spec fn province_toggles(evs: Seq<BuildingEvent>, known: Seq<String>) -> Seq<
    BuildingToggle,
>
    decreases evs.len(),
{
    if evs.len() == 0 {
        Seq::<BuildingToggle>::empty()
    } else {
        let rest = province_toggles(evs.drop_last(), known);
        if known_has(known, evs.last().building@) {
            rest.push(
                BuildingToggle {
                    building: evs.last().building,
                    year: evs.last().date.year,
                    construction: evs.last().construction,
                },
            )
        } else {
            rest
        }
    }
}

/// The recognized toggles of a whole save, province by province.
pub open spec fn save_toggles(ps: Seq<ProvinceRecord>, known: Seq<String>) -> Seq<BuildingToggle>
    decreases ps.len(),
{
    if ps.len() == 0 {
        Seq::<BuildingToggle>::empty()
    } else {
        save_toggles(ps.drop_last(), known) + province_toggles(ps.last().building_events@, known)
    }
}

/// Every toggle's year lies in the province's admitted year range.
pub proof fn lemma_province_toggle_years(
    evs: Seq<BuildingEvent>,
    known: Seq<String>,
    lo: int,
    hi: int,
)
    requires
        forall|i: int| 0 <= i < evs.len() ==> lo <= (#[trigger] evs[i]).date.year <= hi,
    ensures
        forall|i: int| 0 <= i < province_toggles(evs, known).len() ==> lo <= (
        #[trigger] province_toggles(evs, known)[i]).year <= hi,
    decreases evs.len(),
{
    if evs.len() > 0 {
        lemma_province_toggle_years(evs.drop_last(), known, lo, hi);
        let pt = province_toggles(evs, known);
        let rest = province_toggles(evs.drop_last(), known);
        assert forall|i: int| 0 <= i < pt.len() implies lo <= (#[trigger] pt[i]).year <= hi by {
            if i < rest.len() {
                assert(pt[i] == rest[i]);
            }
        }
    }
}

/// Every recognized toggle of a well-formed save is dated inside the
/// campaign's year range.
pub proof fn lemma_save_toggle_years(ps: Seq<ProvinceRecord>, known: Seq<String>, lo: int, hi: int)
    requires
        forall|i: int| 0 <= i < ps.len() ==> (#[trigger] ps[i]).wf(lo, hi),
    ensures
        forall|i: int| 0 <= i < save_toggles(ps, known).len() ==> lo <= (
        #[trigger] save_toggles(ps, known)[i]).year <= hi,
    decreases ps.len(),
{
    if ps.len() > 0 {
        lemma_save_toggle_years(ps.drop_last(), known, lo, hi);
        assert(ps.last() == ps[ps.len() - 1]);
        lemma_province_toggle_years(ps.last().building_events@, known, lo, hi);
        let st = save_toggles(ps, known);
        let rest = save_toggles(ps.drop_last(), known);
        let pt = province_toggles(ps.last().building_events@, known);
        assert forall|i: int| 0 <= i < st.len() implies lo <= (#[trigger] st[i]).year <= hi by {
            if i < rest.len() {
                assert(st[i] == rest[i]);
            } else {
                assert(st[i] == pt[i - rest.len()]);
            }
        }
    }
}

/// Flattens the recognized building toggles out of every province.
pub fn collect_toggles(save: &SaveModel, known: &Vec<String>) -> (r: Vec<BuildingToggle>)
    ensures
        r@ == save_toggles(save.provinces@, known@),
{
    let mut r: Vec<BuildingToggle> = Vec::new();
    let mut i: usize = 0;
    while i < save.provinces.len()
        invariant
            i <= save.provinces@.len(),
            r@ == save_toggles(save.provinces@.take(i as int), known@),
        decreases save.provinces@.len() - i,
    {
        proof {
            assert(save.provinces@.take(i + 1).drop_last() == save.provinces@.take(i as int));
            assert(save.provinces@.take(i + 1).last() == save.provinces@[i as int]);
        }
        let evs = &save.provinces[i].building_events;
        let mut j: usize = 0;
        while j < evs.len()
            invariant
                0 <= i < save.provinces@.len(),
                evs == &save.provinces@[i as int].building_events,
                j <= evs@.len(),
                r@ == save_toggles(save.provinces@.take(i as int), known@) + province_toggles(
                    evs@.take(j as int),
                    known@,
                ),
            decreases evs@.len() - j,
        {
            proof {
                assert(evs@.take(j + 1).drop_last() == evs@.take(j as int));
                assert(evs@.take(j + 1).last() == evs@[j as int]);
            }
            if known_contains(known, &evs[j].building) {
                r.push(
                    BuildingToggle {
                        building: evs[j].building.clone(),
                        year: evs[j].date.year,
                        construction: evs[j].construction,
                    },
                );
            }
            j = j + 1;
        }
        proof {
            assert(evs@.take(evs@.len() as int) == evs@);
        }
        i = i + 1;
    }
    proof {
        assert(save.provinces@.take(save.provinces@.len() as int) == save.provinces@);
    }
    r
}

/// Toggle order: by building identifier (byte-lexicographic), then by year.
pub open spec fn tog_le(a: BuildingToggle, b: BuildingToggle) -> bool {
    if str_bytes(a.building@) == str_bytes(b.building@) {
        a.year <= b.year
    } else {
        bytes_le(str_bytes(a.building@), str_bytes(b.building@))
    }
}

pub open spec fn tog_sorted(s: Seq<BuildingToggle>) -> bool {
    forall|i: int| #![trigger s[i]] 0 <= i && i + 1 < s.len() ==> tog_le(s[i], s[i + 1])
}

pub proof fn lemma_tog_le_total(a: BuildingToggle, b: BuildingToggle)
    ensures
        tog_le(a, b) || tog_le(b, a),
{
    lemma_bytes_le_total(str_bytes(a.building@), str_bytes(b.building@));
}

fn toggle_dup(t: &BuildingToggle) -> (r: BuildingToggle)
    ensures
        r == *t,
{
    BuildingToggle { building: t.building.clone(), year: t.year, construction: t.construction }
}

fn tog_le_exec(a: &BuildingToggle, b: &BuildingToggle) -> (r: bool)
    ensures
        r == tog_le(*a, *b),
{
    if a.building == b.building {
        a.year <= b.year
    } else {
        proof {
            vstd::utf8::encode_utf8_decode_utf8(a.building@);
            vstd::utf8::encode_utf8_decode_utf8(b.building@);
        }
        str_le(&a.building, &b.building)
    }
}

/// Sorts toggles by `(building, year)`, keeping the multiset.
pub fn sort_toggles(v: Vec<BuildingToggle>) -> (r: Vec<BuildingToggle>)
    ensures
        tog_sorted(r@),
        r@.to_multiset() == v@.to_multiset(),
{
    broadcast use vstd::seq_lib::group_to_multiset_ensures;

    let mut out: Vec<BuildingToggle> = Vec::new();
    let mut i: usize = 0;
    proof {
        assert(v@.take(0int) == Seq::<BuildingToggle>::empty());
        assert(out@.to_multiset() =~= v@.take(0int).to_multiset());
    }
    while i < v.len()
        invariant
            i <= v@.len(),
            tog_sorted(out@),
            out@.to_multiset() == v@.take(i as int).to_multiset(),
        decreases v@.len() - i,
    {
        let x = toggle_dup(&v[i]);
        let mut j: usize = 0;
        while j < out.len() && tog_le_exec(&out[j], &x)
            invariant
                j <= out@.len(),
                forall|k: int| 0 <= k < j ==> tog_le(#[trigger] out@[k], x),
            decreases out@.len() - j,
        {
            j = j + 1;
        }
        let ghost old_out = out@;
        out.insert(j, x);
        proof {
            lemma_insert_to_multiset(old_out, j as int, v@[i as int]);
            old_out.insert_ensures(j as int, v@[i as int]);
            assert(v@.take(i + 1) == v@.take(i as int).push(v@[i as int]));
            vstd::seq_lib::to_multiset_build::<BuildingToggle>(v@.take(i as int), v@[i as int]);
            assert(out@.to_multiset() =~= v@.take(i + 1).to_multiset());
            if (j as int) < old_out.len() {
                lemma_tog_le_total(old_out[j as int], v@[i as int]);
            }
            assert forall|k: int| #![trigger out@[k]] 0 <= k && k + 1 < out@.len() implies tog_le(
                out@[k],
                out@[k + 1],
            ) by {
                if k + 1 < j {
                    assert(out@[k] == old_out[k]);
                    assert(out@[k + 1] == old_out[k + 1]);
                } else if k + 1 == j {
                    assert(out@[k] == old_out[k]);
                    assert(out@[k + 1] == v@[i as int]);
                } else if k == j {
                    assert(out@[k] == v@[i as int]);
                    assert(out@[k + 1] == old_out[k]);
                    assert(!tog_le(old_out[j as int], v@[i as int]));
                } else {
                    assert(out@[k] == old_out[k - 1]);
                    assert(out@[k + 1] == old_out[k]);
                }
            }
        }
        i = i + 1;
    }
    proof {
        assert(v@.take(v@.len() as int) == v@);
    }
    out
}

/// Entry order: by building identifier, then by year.
pub open spec fn ent_le(a: DeltaEntry, b: DeltaEntry) -> bool {
    if str_bytes(a.building@) == str_bytes(b.building@) {
        a.year <= b.year
    } else {
        bytes_le(str_bytes(a.building@), str_bytes(b.building@))
    }
}

/// Same `(building, year)` key.
pub open spec fn ent_same_key(a: DeltaEntry, b: DeltaEntry) -> bool {
    a.building@ == b.building@ && a.year == b.year
}

/// Strictly ordered and distinct keys, adjacent-pairwise.
pub open spec fn ents_sorted(s: Seq<DeltaEntry>) -> bool {
    forall|i: int|
        #![trigger s[i]]
        0 <= i && i + 1 < s.len() ==> ent_le(s[i], s[i + 1]) && !ent_same_key(s[i], s[i + 1])
}

/// Equal encoded bytes mean equal identifiers.
pub proof fn lemma_bytes_eq_chars(a: Seq<char>, b: Seq<char>)
    requires
        str_bytes(a) == str_bytes(b),
    ensures
        a == b,
{
    vstd::utf8::encode_utf8_decode_utf8(a);
    vstd::utf8::encode_utf8_decode_utf8(b);
}

pub proof fn lemma_ent_le_trans(a: DeltaEntry, b: DeltaEntry, c: DeltaEntry)
    requires
        ent_le(a, b),
        ent_le(b, c),
    ensures
        ent_le(a, c),
{
    let ab = str_bytes(a.building@);
    let bb = str_bytes(b.building@);
    let cb = str_bytes(c.building@);
    if ab != bb && bb != cb {
        lemma_bytes_le_trans(ab, bb, cb);
        if ab == cb {
            lemma_bytes_le_antisym(ab, bb);
        }
    }
}

/// In a strictly sorted entry sequence, any earlier entry is ordered before
/// (and keyed differently from) any later one.
pub proof fn lemma_ents_global(s: Seq<DeltaEntry>, i: int, j: int)
    requires
        ents_sorted(s),
        0 <= i < j < s.len(),
    ensures
        ent_le(s[i], s[j]),
        !ent_same_key(s[i], s[j]),
    decreases j - i,
{
    if i + 1 == j {
    } else {
        lemma_ents_global(s, i, j - 1);
        lemma_ent_le_trans(s[i], s[j - 1], s[j]);
        if ent_same_key(s[i], s[j]) {
            let bi = str_bytes(s[i].building@);
            let bj1 = str_bytes(s[j - 1].building@);
            let bj = str_bytes(s[j].building@);
            assert(bi == bj);
            if bi == bj1 {
                lemma_bytes_eq_chars(s[i].building@, s[j - 1].building@);
                assert(s[i].year <= s[j - 1].year);
                assert(s[j - 1].year <= s[j].year);
            } else {
                lemma_bytes_le_antisym(bi, bj1);
            }
        }
    }
}

/// The absolute aggregated delta: the weight the aggregation's size bound
/// sums.
pub open spec fn abs_delta() -> spec_fn(DeltaEntry) -> int {
    |e: DeltaEntry|
        if e.delta >= 0 {
            e.delta as int
        } else {
            -(e.delta as int)
        }
}

/// All cumulative nets of the entries match those of the toggles.
#[verifier::opaque]
pub open spec fn cums_match(es: Seq<DeltaEntry>, ts: Seq<BuildingToggle>) -> bool {
    forall|b: Seq<char>, y: int| #[trigger] entry_cum(es, b, y) == net_through(ts, b, y)
}

/// Every entry's key is the key of some toggle.
#[verifier::opaque]
pub open spec fn keys_from(es: Seq<DeltaEntry>, ts: Seq<BuildingToggle>) -> bool {
    forall|q: int| 0 <= q < es.len() ==> exists|k: int|
        0 <= k < ts.len() && (#[trigger] ts[k]).building@ == (#[trigger] es[q]).building@
            && ts[k].year == es[q].year
}

/// Each of the first `n` toggles' keys has an entry.
#[verifier::opaque]
pub open spec fn keys_cover(es: Seq<DeltaEntry>, ts: Seq<BuildingToggle>, n: int) -> bool {
    forall|k: int| 0 <= k < n ==> exists|q: int|
        0 <= q < es.len() && (#[trigger] es[q]).building@ == (#[trigger] ts[k]).building@
            && es[q].year == ts[k].year
}

/// Bumping the last entry's delta by the current toggle keeps the
/// cumulative nets in sync.
proof fn lemma_cum_step_bump(
    old_r: Seq<DeltaEntry>,
    new_r: Seq<DeltaEntry>,
    tvp: Seq<BuildingToggle>,
    t: BuildingToggle,
    new_e: DeltaEntry,
)
    requires
        old_r.len() > 0,
        new_r == old_r.drop_last().push(new_e),
        new_e.building@ == old_r.last().building@,
        new_e.year == old_r.last().year,
        t.building@ == new_e.building@,
        t.year == new_e.year,
        new_e.delta == old_r.last().delta + (if t.construction { 1int } else { -1int }),
        cums_match(old_r, tvp),
    ensures
        cums_match(new_r, tvp.push(t)),
{
    reveal(cums_match);
    assert forall|b: Seq<char>, y: int| #[trigger] entry_cum(new_r, b, y) == net_through(
        tvp.push(t),
        b,
        y,
    ) by {
        assert(entry_cum(old_r, b, y) == net_through(tvp, b, y));
        lemma_seq_sum_push(old_r.drop_last(), entry_through(b, y), new_e);
        lemma_seq_sum_push(tvp, toggle_through(b, y), t);
        assert(old_r.drop_last().push(old_r.last()) =~= old_r);
        lemma_seq_sum_push(old_r.drop_last(), entry_through(b, y), old_r.last());
    }
}

/// Opening a new entry for the current toggle keeps the cumulative nets in
/// sync.
proof fn lemma_cum_step_push(
    old_r: Seq<DeltaEntry>,
    new_r: Seq<DeltaEntry>,
    tvp: Seq<BuildingToggle>,
    t: BuildingToggle,
    new_e: DeltaEntry,
)
    requires
        new_r == old_r.push(new_e),
        t.building@ == new_e.building@,
        t.year == new_e.year,
        new_e.delta == (if t.construction { 1int } else { -1int }),
        cums_match(old_r, tvp),
    ensures
        cums_match(new_r, tvp.push(t)),
{
    reveal(cums_match);
    assert forall|b: Seq<char>, y: int| #[trigger] entry_cum(new_r, b, y) == net_through(
        tvp.push(t),
        b,
        y,
    ) by {
        assert(entry_cum(old_r, b, y) == net_through(tvp, b, y));
        lemma_seq_sum_push(old_r, entry_through(b, y), new_e);
        lemma_seq_sum_push(tvp, toggle_through(b, y), t);
    }
}

/// Replacing the last entry by one with the same key preserves strict
/// sortedness.
proof fn lemma_sorted_bump(old_r: Seq<DeltaEntry>, new_r: Seq<DeltaEntry>, new_e: DeltaEntry)
    requires
        ents_sorted(old_r),
        old_r.len() > 0,
        new_r == old_r.drop_last().push(new_e),
        new_e.building@ == old_r.last().building@,
        new_e.year == old_r.last().year,
    ensures
        ents_sorted(new_r),
{
    assert forall|k: int|
        #![trigger new_r[k]]
        0 <= k && k + 1 < new_r.len() implies ent_le(new_r[k], new_r[k + 1]) && !ent_same_key(
        new_r[k],
        new_r[k + 1],
    ) by {
        if k + 1 < new_r.len() - 1 {
            assert(new_r[k] == old_r[k] && new_r[k + 1] == old_r[k + 1]);
        } else {
            assert(new_r[k] == old_r[k]);
            assert(ent_le(old_r[k], old_r[k + 1]) && !ent_same_key(old_r[k], old_r[k + 1]));
        }
    }
}

/// Appending an entry ordered strictly after the last preserves strict
/// sortedness.
proof fn lemma_sorted_push(old_r: Seq<DeltaEntry>, new_r: Seq<DeltaEntry>, new_e: DeltaEntry)
    requires
        ents_sorted(old_r),
        new_r == old_r.push(new_e),
        old_r.len() > 0 ==> ent_le(old_r.last(), new_e) && !ent_same_key(old_r.last(), new_e),
    ensures
        ents_sorted(new_r),
{
    assert forall|k: int|
        #![trigger new_r[k]]
        0 <= k && k + 1 < new_r.len() implies ent_le(new_r[k], new_r[k + 1]) && !ent_same_key(
        new_r[k],
        new_r[k + 1],
    ) by {
        if k + 1 < new_r.len() - 1 {
            assert(new_r[k] == old_r[k] && new_r[k + 1] == old_r[k + 1]);
        } else if old_r.len() > 0 {
            assert(new_r[k] == old_r[k] && new_r[k + 1] == new_e);
            assert(old_r[k] == old_r.last());
        }
    }
}

/// A bump step keeps every entry key a toggle key.
proof fn lemma_keys_from_bump(
    old_r: Seq<DeltaEntry>,
    new_r: Seq<DeltaEntry>,
    tv: Seq<BuildingToggle>,
    i: int,
    new_e: DeltaEntry,
)
    requires
        old_r.len() > 0,
        new_r == old_r.drop_last().push(new_e),
        0 <= i < tv.len(),
        new_e.building@ == tv[i].building@,
        new_e.year == tv[i].year,
        keys_from(old_r, tv),
    ensures
        keys_from(new_r, tv),
{
    reveal(keys_from);
    assert forall|q: int| 0 <= q < new_r.len() implies exists|k: int|
        0 <= k < tv.len() && (#[trigger] tv[k]).building@ == (#[trigger] new_r[q]).building@
            && tv[k].year == new_r[q].year by {
        if q < new_r.len() - 1 {
            assert(new_r[q] == old_r[q]);
            let w = choose|w: int|
                0 <= w < tv.len() && (#[trigger] tv[w]).building@ == old_r[q].building@
                    && tv[w].year == old_r[q].year;
            assert(tv[w].building@ == new_r[q].building@ && tv[w].year == new_r[q].year);
        } else {
            assert(tv[i].building@ == new_r[q].building@ && tv[i].year == new_r[q].year);
        }
    }
}

/// A push step keeps every entry key a toggle key.
proof fn lemma_keys_from_push(
    old_r: Seq<DeltaEntry>,
    new_r: Seq<DeltaEntry>,
    tv: Seq<BuildingToggle>,
    i: int,
    new_e: DeltaEntry,
)
    requires
        new_r == old_r.push(new_e),
        0 <= i < tv.len(),
        new_e.building@ == tv[i].building@,
        new_e.year == tv[i].year,
        keys_from(old_r, tv),
    ensures
        keys_from(new_r, tv),
{
    reveal(keys_from);
    assert forall|q: int| 0 <= q < new_r.len() implies exists|k: int|
        0 <= k < tv.len() && (#[trigger] tv[k]).building@ == (#[trigger] new_r[q]).building@
            && tv[k].year == new_r[q].year by {
        if q < new_r.len() - 1 {
            assert(new_r[q] == old_r[q]);
            let w = choose|w: int|
                0 <= w < tv.len() && (#[trigger] tv[w]).building@ == old_r[q].building@
                    && tv[w].year == old_r[q].year;
            assert(tv[w].building@ == new_r[q].building@ && tv[w].year == new_r[q].year);
        } else {
            assert(tv[i].building@ == new_r[q].building@ && tv[i].year == new_r[q].year);
        }
    }
}

/// A bump step extends toggle-key coverage to the current toggle.
proof fn lemma_coverage_bump(
    old_r: Seq<DeltaEntry>,
    new_r: Seq<DeltaEntry>,
    tv: Seq<BuildingToggle>,
    i: int,
    new_e: DeltaEntry,
)
    requires
        old_r.len() > 0,
        new_r == old_r.drop_last().push(new_e),
        0 <= i < tv.len(),
        new_e.building@ == old_r.last().building@,
        new_e.year == old_r.last().year,
        new_e.building@ == tv[i].building@,
        new_e.year == tv[i].year,
        keys_cover(old_r, tv, i),
    ensures
        keys_cover(new_r, tv, i + 1),
{
    reveal(keys_cover);
    assert forall|k: int| 0 <= k < i + 1 implies exists|q: int|
        0 <= q < new_r.len() && (#[trigger] new_r[q]).building@ == (#[trigger] tv[k]).building@
            && new_r[q].year == tv[k].year by {
        if k < i {
            let q = choose|q: int|
                0 <= q < old_r.len() && (#[trigger] old_r[q]).building@ == tv[k].building@
                    && old_r[q].year == tv[k].year;
            if q < old_r.len() - 1 {
                assert(new_r[q].building@ == tv[k].building@ && new_r[q].year == tv[k].year);
            } else {
                assert(new_r[new_r.len() - 1].building@ == tv[k].building@ && new_r[new_r.len()
                    - 1].year == tv[k].year);
            }
        } else {
            assert(new_r[new_r.len() - 1].building@ == tv[k].building@ && new_r[new_r.len()
                - 1].year == tv[k].year);
        }
    }
}

/// A push step extends toggle-key coverage to the current toggle.
proof fn lemma_coverage_push(
    old_r: Seq<DeltaEntry>,
    new_r: Seq<DeltaEntry>,
    tv: Seq<BuildingToggle>,
    i: int,
    new_e: DeltaEntry,
)
    requires
        new_r == old_r.push(new_e),
        0 <= i < tv.len(),
        new_e.building@ == tv[i].building@,
        new_e.year == tv[i].year,
        keys_cover(old_r, tv, i),
    ensures
        keys_cover(new_r, tv, i + 1),
{
    reveal(keys_cover);
    assert forall|k: int| 0 <= k < i + 1 implies exists|q: int|
        0 <= q < new_r.len() && (#[trigger] new_r[q]).building@ == (#[trigger] tv[k]).building@
            && new_r[q].year == tv[k].year by {
        if k < i {
            let q = choose|q: int|
                0 <= q < old_r.len() && (#[trigger] old_r[q]).building@ == tv[k].building@
                    && old_r[q].year == tv[k].year;
            assert(new_r[q].building@ == tv[k].building@ && new_r[q].year == tv[k].year);
        } else {
            assert(new_r[new_r.len() - 1].building@ == tv[k].building@ && new_r[new_r.len()
                - 1].year == tv[k].year);
        }
    }
}

/// The empty aggregation is in sync with no toggles.
proof fn lemma_agg_init(tv: Seq<BuildingToggle>)
    ensures
        cums_match(Seq::<DeltaEntry>::empty(), tv.take(0int)),
        keys_from(Seq::<DeltaEntry>::empty(), tv),
        keys_cover(Seq::<DeltaEntry>::empty(), tv, 0int),
{
    reveal(cums_match);
    reveal(keys_from);
    reveal(keys_cover);
    assert(tv.take(0int) == Seq::<BuildingToggle>::empty());
    assert forall|b: Seq<char>, y: int| #[trigger] entry_cum(
        Seq::<DeltaEntry>::empty(),
        b,
        y,
    ) == net_through(tv.take(0int), b, y) by {}
}

/// Aggregates sorted toggles into one net delta per `(building, year)` key.
/// The cumulative net per building and year is preserved exactly, keys are
/// strictly ordered (hence distinct), every key comes from a toggle and
/// every toggle's key has an entry, and the total absolute delta is bounded
/// by the number of toggles.
pub fn aggregate_toggles(toggles: &Vec<BuildingToggle>) -> (r: Vec<DeltaEntry>)
    requires
        tog_sorted(toggles@),
        toggles@.len() <= 0x7fff_ffff,
    ensures
        ents_sorted(r@),
        cums_match(r@, toggles@),
        keys_from(r@, toggles@),
        keys_cover(r@, toggles@, toggles@.len() as int),
        seq_sum(r@, abs_delta()) <= toggles@.len(),
{
    let ghost tv = toggles@;
    let mut r: Vec<DeltaEntry> = Vec::new();
    let mut i: usize = 0;
    proof {
        lemma_agg_init(tv);
        assert(r@ =~= Seq::<DeltaEntry>::empty());
    }
    while i < toggles.len()
        invariant
            tog_sorted(tv),
            tv == toggles@,
            tv.len() <= 0x7fff_ffff,
            i <= tv.len(),
            ents_sorted(r@),
            i == 0 ==> r@.len() == 0,
            i > 0 ==> r@.len() > 0 && r@.last().building@ == tv[i - 1].building@ && r@.last().year
                == tv[i - 1].year,
            cums_match(r@, tv.take(i as int)),
            keys_from(r@, tv),
            keys_cover(r@, tv, i as int),
            seq_sum(r@, abs_delta()) <= i,
        decreases tv.len() - i,
    {
        proof {
            assert(tv.take(i + 1).drop_last() == tv.take(i as int));
            assert(tv.take(i + 1).last() == tv[i as int]);
            assert(tv.take(i + 1) =~= tv.take(i as int).push(tv[i as int]));
        }
        let construct = toggles[i].construction;
        let mut matched: bool = false;
        if r.len() > 0 {
            let n: usize = r.len() - 1;
            if r[n].building == toggles[i].building && r[n].year == toggles[i].year {
                matched = true;
            }
        }
        let ghost old_r = r@;
        if matched {
            let old_e = r.pop().unwrap();
            proof {
                assert(old_r.subrange(0, old_r.len() - 1) =~= old_r.drop_last());
                lemma_seq_sum_remove(old_r, old_r.len() - 1, abs_delta());
                assert(old_r.remove(old_r.len() - 1) =~= old_r.drop_last());
                lemma_seq_sum_abs(old_r.drop_last(), abs_delta(), abs_delta());
                assert(abs_delta()(old_e) <= seq_sum(old_r, abs_delta()));
            }
            let nd: i32 = if construct {
                old_e.delta + 1
            } else {
                old_e.delta - 1
            };
            let ghost new_e = DeltaEntry { building: old_e.building, year: old_e.year, delta: nd };
            r.push(DeltaEntry { building: old_e.building, year: old_e.year, delta: nd });
            proof {
                assert(r@ =~= old_r.drop_last().push(new_e));
                assert(old_r.last() == old_e);
                lemma_cum_step_bump(old_r, r@, tv.take(i as int), tv[i as int], new_e);
                lemma_seq_sum_push(old_r.drop_last(), abs_delta(), new_e);
                lemma_sorted_bump(old_r, r@, new_e);
                lemma_keys_from_bump(old_r, r@, tv, i as int, new_e);
                lemma_coverage_bump(old_r, r@, tv, i as int, new_e);
            }
        } else {
            let nd: i32 = if construct {
                1
            } else {
                -1
            };
            let ghost new_e = DeltaEntry {
                building: tv[i as int].building,
                year: tv[i as int].year,
                delta: nd,
            };
            r.push(
                DeltaEntry { building: toggles[i].building.clone(), year: toggles[i].year, delta: nd },
            );
            proof {
                assert(r@ =~= old_r.push(new_e));
                lemma_cum_step_push(old_r, r@, tv.take(i as int), tv[i as int], new_e);
                lemma_seq_sum_push(old_r, abs_delta(), new_e);
                if old_r.len() > 0 {
                    assert(tog_le(tv[i - 1], tv[i as int]));
                    if old_r[old_r.len() - 1].building@ == new_e.building@ {
                        assert(str_bytes(old_r[old_r.len() - 1].building@) == str_bytes(
                            new_e.building@,
                        ));
                    }
                    assert(ent_le(old_r[old_r.len() - 1], new_e));
                    assert(!ent_same_key(old_r[old_r.len() - 1], new_e));
                }
                lemma_sorted_push(old_r, r@, new_e);
                lemma_keys_from_push(old_r, r@, tv, i as int, new_e);
                lemma_coverage_push(old_r, r@, tv, i as int, new_e);
            }
        }
        i = i + 1;
    }
    proof {
        assert(tv.take(tv.len() as int) == tv);
    }
    r
}

/// The plain delta weight.
pub open spec fn delta_w() -> spec_fn(DeltaEntry) -> int {
    |e: DeltaEntry| e.delta as int
}

/// A province's recognized toggles are no more numerous than its events.
proof fn lemma_province_toggles_len(evs: Seq<BuildingEvent>, known: Seq<String>)
    ensures
        province_toggles(evs, known).len() <= evs.len(),
    decreases evs.len(),
{
    if evs.len() > 0 {
        lemma_province_toggles_len(evs.drop_last(), known);
    }
}

/// A save's recognized toggles are no more numerous than its building
/// events.
proof fn lemma_save_toggles_len(ps: Seq<ProvinceRecord>, known: Seq<String>)
    ensures
        save_toggles(ps, known).len() <= crate::model::total_building_events(ps),
    decreases ps.len(),
{
    if ps.len() > 0 {
        lemma_save_toggles_len(ps.drop_last(), known);
        lemma_province_toggles_len(ps.last().building_events@, known);
    }
}

/// Expands sorted aggregated deltas into the dense annual series: one row
/// per `(building, year)` for every building with an entry and every year in
/// `[start_year, end_year]`, carrying the cumulative net count.
#[verifier::rlimit(100)]
fn expand_dense(entries: &Vec<DeltaEntry>, start_year: u16, end_year: u16) -> (out: Vec<
    BuildingEntry,
>)
    requires
        start_year <= end_year,
        ents_sorted(entries@),
        forall|q: int| 0 <= q < entries@.len() ==> start_year <= (#[trigger] entries@[q]).year
            <= end_year,
        seq_sum(entries@, abs_delta()) <= 0x7fff_ffff,
    ensures
        forall|q: int|
            0 <= q < out@.len() ==> {
                &&& exists|k: int|
                    0 <= k < entries@.len() && (#[trigger] entries@[k]).building@ == (
                    #[trigger] out@[q]).building@
                &&& start_year <= out@[q].year <= end_year
                &&& out@[q].count == entry_cum(entries@, out@[q].building@, out@[q].year as int)
            },
        forall|k: int, y: int|
            0 <= k < entries@.len() && start_year <= y <= end_year ==> #[trigger] row_count(
                out@,
                (#[trigger] entries@[k]).building@,
                y,
            ) == 1,
{
    let ghost ev = entries@;
    let mut out: Vec<BuildingEntry> = Vec::new();
    let mut i: usize = 0;
    while i < entries.len()
        invariant
            ev == entries@,
            start_year <= end_year,
            ents_sorted(ev),
            forall|q: int| 0 <= q < ev.len() ==> start_year <= (#[trigger] ev[q]).year <= end_year,
            seq_sum(ev, abs_delta()) <= 0x7fff_ffff,
            0 <= i <= ev.len(),
            i == 0 || i == ev.len() || ev[i - 1].building@ != ev[i as int].building@,
            forall|q: int|
                0 <= q < out@.len() ==> {
                    &&& exists|k: int|
                        0 <= k < i && (#[trigger] ev[k]).building@ == (#[trigger] out@[q]).building@
                    &&& start_year <= out@[q].year <= end_year
                    &&& out@[q].count == entry_cum(ev, out@[q].building@, out@[q].year as int)
                },
            forall|k: int, y: int|
                0 <= k < i && start_year <= y <= end_year ==> #[trigger] row_count(
                    out@,
                    (#[trigger] ev[k]).building@,
                    y,
                ) == 1,
        decreases ev.len() - i,
    {
        let mut j: usize = i + 1;
        while j < entries.len() && entries[j].building == entries[i].building
            invariant
                ev == entries@,
                0 <= i < j <= ev.len(),
                forall|q: int| i <= q < j ==> (#[trigger] ev[q]).building@ == ev[i as int].building@,
            decreases ev.len() - j,
        {
            j = j + 1;
        }
        let ghost b = ev[i as int].building@;
        proof {
            // the run [i, j) holds every entry of this building
            assert forall|q: int|
                0 <= q < ev.len() && !(i <= q < j) implies (#[trigger] ev[q]).building@ != b by {
                if ev[q].building@ == b {
                    if q < i {
                        // ev[q] sorts before ev[i - 1], which sorts before ev[i],
                        // yet ev[q] and ev[i] share a building the boundary says
                        // ev[i - 1] lacks
                        if q < i - 1 {
                            lemma_ents_global(ev, q, i - 1);
                        }
                        assert(ent_le(ev[q], ev[i - 1]));
                        assert(ent_le(ev[i - 1], ev[i as int]));
                        if str_bytes(ev[i - 1].building@) == str_bytes(b) {
                            lemma_bytes_eq_chars(ev[i - 1].building@, b);
                        } else {
                            assert(bytes_le(str_bytes(b), str_bytes(ev[i - 1].building@)));
                            assert(bytes_le(str_bytes(ev[i - 1].building@), str_bytes(b)));
                            lemma_bytes_le_antisym(str_bytes(ev[i - 1].building@), str_bytes(b));
                            lemma_bytes_eq_chars(ev[i - 1].building@, b);
                        }
                    } else {
                        // symmetric: ev[j] sits between ev[j - 1] (in the run) and
                        // ev[q], both of building b
                        assert(ent_le(ev[j - 1], ev[j as int]));
                        assert(ev[j - 1].building@ == b);
                        if j < q {
                            lemma_ents_global(ev, j as int, q);
                        }
                        assert(ent_le(ev[j as int], ev[q]));
                        if str_bytes(ev[j as int].building@) == str_bytes(b) {
                            lemma_bytes_eq_chars(ev[j as int].building@, b);
                        } else {
                            assert(bytes_le(str_bytes(b), str_bytes(ev[j as int].building@)));
                            assert(bytes_le(str_bytes(ev[j as int].building@), str_bytes(b)));
                            lemma_bytes_le_antisym(str_bytes(ev[j as int].building@), str_bytes(b));
                            lemma_bytes_eq_chars(ev[j as int].building@, b);
                        }
                    }
                }
            }
        }
        let mut acc: i64 = 0;
        let mut k: usize = i;
        let mut y: u32 = start_year as u32;
        proof {
            assert(ev.subrange(i as int, i as int) =~= Seq::<DeltaEntry>::empty());
            assert forall|yy: int| start_year <= yy <= end_year implies #[trigger] row_count(
                out@,
                b,
                yy,
            ) == 0 by {
                assert forall|q: int| 0 <= q < out@.len() implies row_weight(b, yy)(
                    #[trigger] out@[q],
                ) == 0 by {
                    let kk = choose|kk: int|
                        0 <= kk < i && (#[trigger] ev[kk]).building@ == out@[q].building@;
                    assert(ev[kk].building@ != b);
                }
                lemma_seq_sum_zero(out@, row_weight(b, yy));
            }
        }
        while y <= end_year as u32
            invariant
                ev == entries@,
                start_year <= end_year,
                ents_sorted(ev),
                forall|q: int| 0 <= q < ev.len() ==> start_year <= (#[trigger] ev[q]).year
                    <= end_year,
                seq_sum(ev, abs_delta()) <= 0x7fff_ffff,
                0 <= i < j <= ev.len(),
                forall|q: int| i <= q < j ==> (#[trigger] ev[q]).building@ == b,
                forall|q: int| 0 <= q < ev.len() && !(i <= q < j) ==> (#[trigger] ev[q]).building@
                    != b,
                b == ev[i as int].building@,
                start_year as u32 <= y <= end_year as u32 + 1,
                i <= k <= j,
                forall|q: int| i <= q < k ==> (#[trigger] ev[q]).year < y,
                forall|q: int| k <= q < j ==> (#[trigger] ev[q]).year >= y,
                acc == seq_sum(ev.subrange(i as int, k as int), delta_w()),
                -0x7fff_ffff <= acc <= 0x7fff_ffff,
                forall|q: int|
                    0 <= q < out@.len() ==> {
                        &&& exists|kk: int|
                            0 <= kk < j && (#[trigger] ev[kk]).building@ == (
                            #[trigger] out@[q]).building@
                        &&& start_year <= out@[q].year <= end_year
                        &&& out@[q].count == entry_cum(ev, out@[q].building@, out@[q].year as int)
                    },
                forall|kk: int, yy: int|
                    0 <= kk < i && start_year <= yy <= end_year ==> #[trigger] row_count(
                        out@,
                        (#[trigger] ev[kk]).building@,
                        yy,
                    ) == 1,
                forall|yy: int| start_year <= yy < y ==> #[trigger] row_count(out@, b, yy) == 1,
                forall|yy: int| y <= yy <= end_year ==> #[trigger] row_count(out@, b, yy) == 0,
            decreases end_year as int + 1 - y,
        {
            if k < j && entries[k].year as u32 == y {
                proof {
                    assert(ev.subrange(i as int, k + 1) =~= ev.subrange(i as int, k as int).push(
                        ev[k as int],
                    ));
                    lemma_seq_sum_push(ev.subrange(i as int, k as int), delta_w(), ev[k as int]);
                }
                acc = acc + entries[k].delta as i64;
                k = k + 1;
                proof {
                    lemma_seq_sum_abs(ev.subrange(i as int, k as int), delta_w(), abs_delta());
                    lemma_seq_sum_subrange_le(ev, i as int, k as int, abs_delta());
                }
            }
            proof {
                assert forall|q: int| k <= q < j implies (#[trigger] ev[q]).year >= y + 1 by {
                    if q > k {
                        lemma_ents_global(ev, k as int, q);
                    }
                    if q == k || true {
                        assert(str_bytes(ev[q].building@) == str_bytes(b));
                    }
                }
            }
            let ghost old_out = out@;
            let ghost row = BuildingEntry {
                building: ev[i as int].building,
                year: y as u16,
                count: acc as i32,
            };
            out.push(
                BuildingEntry {
                    building: entries[i].building.clone(),
                    year: y as u16,
                    count: acc as i32,
                },
            );
            proof {
                assert(out@ =~= old_out.push(row));
                // the pushed count is the cumulative net through year y
                let w = entry_through(b, y as int);
                assert(ev =~= ev.subrange(0, i as int) + ev.subrange(i as int, k as int)
                    + ev.subrange(k as int, ev.len() as int));
                lemma_seq_sum_concat(
                    ev.subrange(0, i as int) + ev.subrange(i as int, k as int),
                    ev.subrange(k as int, ev.len() as int),
                    w,
                );
                lemma_seq_sum_concat(
                    ev.subrange(0, i as int),
                    ev.subrange(i as int, k as int),
                    w,
                );
                lemma_seq_sum_zero(ev.subrange(0, i as int), w);
                lemma_seq_sum_zero(ev.subrange(k as int, ev.len() as int), w);
                lemma_seq_sum_pointwise(ev.subrange(i as int, k as int), w, delta_w());
                assert(entry_cum(ev, b, y as int) == acc);
                // row counts update
                assert forall|kk: int, yy: int|
                    0 <= kk < i && start_year <= yy <= end_year implies #[trigger] row_count(
                        out@,
                        (#[trigger] ev[kk]).building@,
                        yy,
                    ) == 1 by {
                    assert(row_count(old_out, ev[kk].building@, yy) == 1);
                    assert(ev[kk].building@ != b);
                    assert(row_weight(ev[kk].building@, yy)(row) == 0);
                    lemma_seq_sum_push(old_out, row_weight(ev[kk].building@, yy), row);
                }
                assert forall|yy: int| start_year <= yy < y + 1 implies #[trigger] row_count(
                    out@,
                    b,
                    yy,
                ) == 1 by {
                    lemma_seq_sum_push(old_out, row_weight(b, yy), row);
                    if yy < y {
                        assert(row_count(old_out, b, yy) == 1);
                        assert(row_weight(b, yy)(row) == 0);
                    } else {
                        assert(row_count(old_out, b, yy) == 0);
                        assert(row_weight(b, yy)(row) == 1);
                    }
                }
                assert forall|yy: int| y + 1 <= yy <= end_year implies #[trigger] row_count(
                    out@,
                    b,
                    yy,
                ) == 0 by {
                    assert(row_count(old_out, b, yy) == 0);
                    assert(row_weight(b, yy)(row) == 0);
                    lemma_seq_sum_push(old_out, row_weight(b, yy), row);
                }
            }
            y = y + 1;
        }
        proof {
            assert(k == j);
            assert forall|kk: int, yy: int|
                0 <= kk < j && start_year <= yy <= end_year implies #[trigger] row_count(
                    out@,
                    (#[trigger] ev[kk]).building@,
                    yy,
                ) == 1 by {
                if i <= kk < j {
                    assert(ev[kk].building@ == b);
                }
            }
        }
        i = j;
    }
    out
}

/// Chart row order: by year, then by building identifier descending, for
/// stable chart rendering.
pub open spec fn row_le(a: BuildingEntry, b: BuildingEntry) -> bool {
    a.year < b.year || (a.year == b.year && bytes_le(str_bytes(b.building@), str_bytes(a.building@)))
}

pub open spec fn rows_sorted(s: Seq<BuildingEntry>) -> bool {
    forall|i: int| #![trigger s[i]] 0 <= i && i + 1 < s.len() ==> row_le(s[i], s[i + 1])
}

fn row_dup(e: &BuildingEntry) -> (r: BuildingEntry)
    ensures
        r == *e,
{
    BuildingEntry { building: e.building.clone(), year: e.year, count: e.count }
}

fn row_le_exec(a: &BuildingEntry, b: &BuildingEntry) -> (r: bool)
    ensures
        r == row_le(*a, *b),
{
    if a.year < b.year {
        true
    } else if a.year > b.year {
        false
    } else {
        str_le(&b.building, &a.building)
    }
}

/// Sorts the dense rows into chart order, keeping the multiset of rows.
fn sort_rows(v: Vec<BuildingEntry>) -> (r: Vec<BuildingEntry>)
    ensures
        rows_sorted(r@),
        r@.to_multiset() == v@.to_multiset(),
{
    broadcast use vstd::seq_lib::group_to_multiset_ensures;

    let mut out: Vec<BuildingEntry> = Vec::new();
    let mut i: usize = 0;
    proof {
        assert(v@.take(0int) == Seq::<BuildingEntry>::empty());
        assert(out@.to_multiset() =~= v@.take(0int).to_multiset());
    }
    while i < v.len()
        invariant
            i <= v@.len(),
            rows_sorted(out@),
            out@.to_multiset() == v@.take(i as int).to_multiset(),
        decreases v@.len() - i,
    {
        let x = row_dup(&v[i]);
        let mut j: usize = 0;
        while j < out.len() && row_le_exec(&out[j], &x)
            invariant
                j <= out@.len(),
                forall|k: int| 0 <= k < j ==> row_le(#[trigger] out@[k], x),
            decreases out@.len() - j,
        {
            j = j + 1;
        }
        let ghost old_out = out@;
        out.insert(j, x);
        proof {
            lemma_insert_to_multiset(old_out, j as int, v@[i as int]);
            old_out.insert_ensures(j as int, v@[i as int]);
            assert(v@.take(i + 1) == v@.take(i as int).push(v@[i as int]));
            vstd::seq_lib::to_multiset_build::<BuildingEntry>(v@.take(i as int), v@[i as int]);
            assert(out@.to_multiset() =~= v@.take(i + 1).to_multiset());
            if (j as int) < old_out.len() {
                lemma_bytes_le_total(
                    str_bytes(v@[i as int].building@),
                    str_bytes(old_out[j as int].building@),
                );
            }
            assert forall|k: int| #![trigger out@[k]] 0 <= k && k + 1 < out@.len() implies row_le(
                out@[k],
                out@[k + 1],
            ) by {
                if k + 1 < j {
                    assert(out@[k] == old_out[k]);
                    assert(out@[k + 1] == old_out[k + 1]);
                } else if k + 1 == j {
                    assert(out@[k] == old_out[k]);
                    assert(out@[k + 1] == v@[i as int]);
                } else if k == j {
                    assert(out@[k] == v@[i as int]);
                    assert(out@[k + 1] == old_out[k]);
                    assert(!row_le(old_out[j as int], v@[i as int]));
                } else {
                    assert(out@[k] == old_out[k - 1]);
                    assert(out@[k + 1] == old_out[k]);
                }
            }
        }
        i = i + 1;
    }
    proof {
        assert(v@.take(v@.len() as int) == v@);
    }
    out
}

/// Reconstructs the dense annual building series of a save: aggregates the
/// recognized construction/demolition toggles into per-year deltas, expands
/// them into one row per building and year across
/// `[campaign start year, save year]` with the running net count, and orders
/// rows by year, then building descending.
///
/// The contract states the dense-series law: for every building that has a
/// recognized toggle, the output holds exactly one row per year of the
/// campaign range, and each row's count is the net of the raw toggle events
/// for that building dated in or before the row's year — so the final year's
/// row carries exactly the net change the raw events record.
#[verifier::rlimit(100)]
pub fn get_building_history(save: &SaveModel, known: &Vec<String>) -> (out: Vec<BuildingEntry>)
    requires
        save.wf(),
    ensures
        rows_sorted(out@),
        forall|q: int|
            0 <= q < out@.len() ==> {
                &&& (exists|k: int|
                    0 <= k < save_toggles(save.provinces@, known@).len() && (
                    #[trigger] save_toggles(save.provinces@, known@)[k]).building@ == (
                    #[trigger] out@[q]).building@)
                &&& save.start_date.year <= out@[q].year <= save.save_date.year
                &&& out@[q].count == net_through(
                    save_toggles(save.provinces@, known@),
                    out@[q].building@,
                    out@[q].year as int,
                )
            },
        forall|k: int, y: int|
            0 <= k < save_toggles(save.provinces@, known@).len() && save.start_date.year <= y
                <= save.save_date.year ==> #[trigger] row_count(
                out@,
                (#[trigger] save_toggles(save.provinces@, known@)[k]).building@,
                y,
            ) == 1,
{
    broadcast use vstd::seq_lib::group_to_multiset_ensures;

    let ghost raw = save_toggles(save.provinces@, known@);
    let toggles = collect_toggles(save, known);
    proof {
        lemma_save_toggles_len(save.provinces@, known@);
        lemma_save_toggle_years(
            save.provinces@,
            known@,
            save.start_date.year as int,
            save.save_date.year as int,
        );
    }
    let sorted = sort_toggles(toggles);
    let ghost sv = sorted@;
    proof {
        lemma_multiset_eq_contains(sv, raw);
        assert(sv.len() == sv.to_multiset().len());
        assert(raw.len() == raw.to_multiset().len());
        assert forall|q: int|
            0 <= q < sv.len() implies save.start_date.year <= (#[trigger] sv[q]).year
            <= save.save_date.year by {
            assert(raw.contains(sv[q]));
            let w = choose|w: int| 0 <= w < raw.len() && raw[w] == sv[q];
        }
    }
    let entries = aggregate_toggles(&sorted);
    proof {
        reveal(keys_from);
        assert forall|q: int|
            0 <= q < entries@.len() implies save.start_date.year <= (
            #[trigger] entries@[q]).year <= save.save_date.year by {
            let w = choose|w: int|
                0 <= w < sv.len() && (#[trigger] sv[w]).building@ == entries@[q].building@
                    && sv[w].year == entries@[q].year;
        }
        // the campaign starts no later than the save's year
        assert(save.start_date.year <= save.save_date.year) by {
            assert(save.start_date.index_spec() <= save.save_date.index_spec());
        }
    }
    let dense = expand_dense(&entries, save.start_date.year, save.save_date.year);
    let out = sort_rows(dense);
    proof {
        lemma_multiset_eq_contains(out@, dense@);
        assert forall|q: int|
            0 <= q < out@.len() implies {
            &&& (exists|k: int|
                0 <= k < raw.len() && (#[trigger] raw[k]).building@ == (
                #[trigger] out@[q]).building@)
            &&& save.start_date.year <= out@[q].year <= save.save_date.year
            &&& out@[q].count == net_through(raw, out@[q].building@, out@[q].year as int)
        } by {
            reveal(cums_match);
            reveal(keys_from);
            assert(dense@.contains(out@[q]));
            let w = choose|w: int| 0 <= w < dense@.len() && dense@[w] == out@[q];
            assert(dense@[w].count == entry_cum(entries@, dense@[w].building@, dense@[w].year as int));
            lemma_seq_sum_multiset(
                sv,
                raw,
                toggle_through(out@[q].building@, out@[q].year as int),
            );
            // the row's building comes from an aggregated entry, whose key
            // comes from a sorted toggle, which permutes a raw toggle
            let e = choose|e: int|
                0 <= e < entries@.len() && (#[trigger] entries@[e]).building@
                    == dense@[w].building@;
            let tk = choose|tk: int|
                0 <= tk < sv.len() && (#[trigger] sv[tk]).building@ == entries@[e].building@
                    && sv[tk].year == entries@[e].year;
            assert(raw.contains(sv[tk]));
            let rk = choose|rk: int| 0 <= rk < raw.len() && raw[rk] == sv[tk];
            assert(raw[rk].building@ == out@[q].building@);
        }
        assert forall|k: int, y: int|
            0 <= k < raw.len() && save.start_date.year <= y <= save.save_date.year implies
            #[trigger] row_count(out@, (#[trigger] raw[k]).building@, y) == 1 by {
            reveal(keys_cover);
            lemma_seq_sum_multiset(out@, dense@, row_weight(raw[k].building@, y));
            assert(sv.contains(raw[k]));
            let w = choose|w: int| 0 <= w < sv.len() && sv[w] == raw[k];
            assert(exists|q: int|
                0 <= q < entries@.len() && (#[trigger] entries@[q]).building@ == sv[w].building@
                    && entries@[q].year == sv[w].year);
            let q = choose|q: int|
                0 <= q < entries@.len() && (#[trigger] entries@[q]).building@ == sv[w].building@
                    && entries@[q].year == sv[w].year;
            assert(row_count(dense@, entries@[q].building@, y) == 1);
        }
    }
    out
}

} // verus!
