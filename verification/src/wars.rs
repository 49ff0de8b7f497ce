//! The war timeline reconstructor: walks each war's event log to produce
//! participant sets, battle counts, defensively computed start/end dates and
//! per-side casualty totals, filtered by resolved tag identity.
//!
//! Malformed war records — an empty name, or an original attacker equal to
//! the reserved "no entity" sentinel — are known upstream-parser artifacts
//! and are silently dropped, never emitted.

use crate::dates::Date;
use crate::identity::{resolve_spec, Identity, IdentityIndex};
use crate::ledger::{display_name, display_name_spec, matching_tags, matching_seq, TagFilterPayload};
use crate::losses::{decode_losses, decoded_at, LOSS_CATEGORIES};
use crate::model::{SaveModel, WarEvent, WarEventKind, WarParticipantRecord, WarRecord};
use crate::tags::Tag;
use vstd::prelude::*;

verus! {

/// The state a war's event log folds into: insertion-ordered attacker and
/// defender member sets, every Add event with its date, the battle count,
/// and running minimum and maximum event dates.
pub struct WarWalk {
    pub attackers: Seq<Tag>,
    pub defenders: Seq<Tag>,
    pub added_attackers: Seq<(Date, Tag)>,
    pub added_defenders: Seq<(Date, Tag)>,
    pub battles: int,
    pub start: Option<Date>,
    pub end: Option<Date>,
}

/// Set-semantics insert: re-adding an already active member changes
/// nothing.
pub open spec fn set_insert(s: Seq<Tag>, t: Tag) -> Seq<Tag> {
    if s.contains(t) {
        s
    } else {
        s.push(t)
    }
}

/// Removes the first occurrence of `t`, if any.
pub open spec fn set_remove(s: Seq<Tag>, t: Tag) -> Seq<Tag>
    decreases s.len(),
{
    if s.len() == 0 {
        s
    } else if s[0] == t {
        s.drop_first()
    } else {
        seq![s[0]] + set_remove(s.drop_first(), t)
    }
}

/// Running minimum of event dates.
pub open spec fn date_min(cur: Option<Date>, d: Date) -> Option<Date> {
    match cur {
        Some(c) => if d.index_spec() < c.index_spec() {
            Some(d)
        } else {
            Some(c)
        },
        None => Some(d),
    }
}

/// Running maximum of event dates.
pub open spec fn date_max(cur: Option<Date>, d: Date) -> Option<Date> {
    match cur {
        Some(c) => if d.index_spec() > c.index_spec() {
            Some(d)
        } else {
            Some(c)
        },
        None => Some(d),
    }
}

pub open spec fn walk_init() -> WarWalk {
    WarWalk {
        attackers: Seq::<Tag>::empty(),
        defenders: Seq::<Tag>::empty(),
        added_attackers: Seq::<(Date, Tag)>::empty(),
        added_defenders: Seq::<(Date, Tag)>::empty(),
        battles: 0,
        start: None,
        end: None,
    }
}

pub open spec fn walk_step(st: WarWalk, ev: WarEvent) -> WarWalk {
    let dated = WarWalk {
        start: date_min(st.start, ev.date),
        end: date_max(st.end, ev.date),
        ..st
    };
    match ev.kind {
        WarEventKind::AddAttacker(t) => WarWalk {
            attackers: set_insert(dated.attackers, t),
            added_attackers: dated.added_attackers.push((ev.date, t)),
            ..dated
        },
        WarEventKind::AddDefender(t) => WarWalk {
            defenders: set_insert(dated.defenders, t),
            added_defenders: dated.added_defenders.push((ev.date, t)),
            ..dated
        },
        WarEventKind::RemoveAttacker(t) => WarWalk {
            attackers: set_remove(dated.attackers, t),
            ..dated
        },
        WarEventKind::RemoveDefender(t) => WarWalk {
            defenders: set_remove(dated.defenders, t),
            ..dated
        },
        WarEventKind::Battle(b) => WarWalk { battles: dated.battles + 1, ..dated },
    }
}

/// The whole log folded in log order.
pub open spec fn war_walk(events: Seq<WarEvent>) -> WarWalk
    decreases events.len(),
{
    if events.len() == 0 {
        walk_init()
    } else {
        walk_step(war_walk(events.drop_last()), events.last())
    }
}

/// The tags of all Add events, in log order. A participant who left the war
/// is still counted in the side it last belonged to, so loss bucketing goes
/// by these ever-added tags, never by the post-removal member sets.
pub open spec fn added_tags(adds: Seq<(Date, Tag)>) -> Seq<Tag> {
    adds.map_values(|p: (Date, Tag)| p.1)
}

/// Per-side casualty totals: each participant's decoded losses vector is
/// summed into the attacker bucket when an AddAttacker event ever named its
/// tag; otherwise into the defender bucket when an AddDefender event ever
/// named it. A participant added to neither side counts nowhere.
pub open spec fn zeros21() -> Seq<int> {
    Seq::new(LOSS_CATEGORIES as nat, |i: int| 0int)
}

pub open spec fn add_decoded(acc: Seq<int>, raw: Seq<i32>) -> Seq<int> {
    Seq::new(acc.len(), |i: int| acc[i] + decoded_at(raw, i))
}

pub open spec fn side_losses(
    ps: Seq<WarParticipantRecord>,
    members: Seq<Tag>,
    other: Seq<Tag>,
) -> Seq<int>
    decreases ps.len(),
{
    if ps.len() == 0 {
        zeros21()
    } else {
        let rest = side_losses(ps.drop_last(), members, other);
        if members.contains(ps.last().tag) {
            add_decoded(rest, ps.last().raw_losses@)
        } else {
            rest
        }
    }
}

/// Attacker-bucket membership: in the final attacker set. Defender bucket:
/// not an attacker but in the final defender set.
pub open spec fn defender_bucket(
    ps: Seq<WarParticipantRecord>,
    atk: Seq<Tag>,
    def: Seq<Tag>,
) -> Seq<int>
    decreases ps.len(),
{
    if ps.len() == 0 {
        zeros21()
    } else {
        let rest = defender_bucket(ps.drop_last(), atk, def);
        if !atk.contains(ps.last().tag) && def.contains(ps.last().tag) {
            add_decoded(rest, ps.last().raw_losses@)
        } else {
            rest
        }
    }
}

/// Both loss buckets always have the 21 categories.
pub proof fn lemma_buckets_len(ps: Seq<WarParticipantRecord>, a: Seq<Tag>, d: Seq<Tag>)
    ensures
        side_losses(ps, a, d).len() == LOSS_CATEGORIES,
        defender_bucket(ps, a, d).len() == LOSS_CATEGORIES,
    decreases ps.len(),
{
    if ps.len() > 0 {
        lemma_buckets_len(ps.drop_last(), a, d);
    }
}

/// Fail-soft resolution result, as the war filter uses it: the owning
/// identity's latest tag, or the input tag unchanged.
pub open spec fn resolve_out(ids: Seq<Identity>, t: Tag, d: Date) -> Tag {
    match resolve_spec(ids, t, d) {
        Some(r) => r.current,
        None => t,
    }
}

/// At least one tag involved in the war — either original belligerent
/// resolved at the war's start, or any Add event's tag resolved at that
/// event's date — matches the filter set.
pub open spec fn war_filter_hit(
    ids: Seq<Identity>,
    w: WarRecord,
    st: WarWalk,
    start: Date,
    tags: Seq<Tag>,
) -> bool {
    ||| tags.contains(resolve_out(ids, w.original_attacker, start))
    ||| tags.contains(resolve_out(ids, w.original_defender, start))
    ||| exists|i: int|
        0 <= i < st.added_attackers.len() && tags.contains(
            resolve_out(ids, (#[trigger] st.added_attackers[i]).1, st.added_attackers[i].0),
        )
    ||| exists|i: int|
        0 <= i < st.added_defenders.len() && tags.contains(
            resolve_out(ids, (#[trigger] st.added_defenders[i]).1, st.added_defenders[i].0),
        )
}

/// The guards a war record must pass to be emitted: a non-empty name, a
/// real original attacker, a computed start no earlier than the campaign
/// start, and a filter hit.
pub open spec fn war_qualifies(
    save: SaveModel,
    ids: Seq<Identity>,
    tags: Seq<Tag>,
    w: WarRecord,
) -> bool {
    let st = war_walk(w.events@);
    let start = match st.start {
        Some(s) => s,
        None => save.start_date,
    };
    &&& w.name@.len() > 0
    &&& w.original_attacker != crate::tags::no_entity_spec()
    &&& start.index_spec() >= save.start_date.index_spec()
    &&& war_filter_hit(ids, w, st, start, tags)
}

/// The wars of a list that pass every guard, in list order.
pub open spec fn qualifying(
    save: SaveModel,
    ids: Seq<Identity>,
    tags: Seq<Tag>,
    ws: Seq<WarRecord>,
) -> Seq<WarRecord> {
    ws.filter(|w: WarRecord| war_qualifies(save, ids, tags, w))
}

/// One side of a reconstructed war summary.
pub struct WarSide {
    pub original: Tag,
    pub original_name: String,
    pub members: Vec<Tag>,
    pub losses: Vec<u64>,
}

/// A reconstructed war summary.
pub struct WarOverview {
    pub name: String,
    pub start_date: Date,
    pub end_date: Option<Date>,
    pub days: i32,
    pub battles: usize,
    pub attackers: WarSide,
    pub defenders: WarSide,
}

/// What a war summary emitted for war `w` guarantees. `is_active` wars have
/// no end date and measure their length to the save date; previous wars end
/// at their latest event date.
pub open spec fn is_overview_of(
    save: SaveModel,
    ids: Seq<Identity>,
    w: WarRecord,
    tags: Seq<Tag>,
    is_active: bool,
    o: WarOverview,
) -> bool {
    let st = war_walk(w.events@);
    let start = match st.start {
        Some(s) => s,
        None => save.start_date,
    };
    &&& o.name@ == w.name@
    &&& o.name@.len() > 0
    &&& w.original_attacker != crate::tags::no_entity_spec()
    &&& start.index_spec() >= save.start_date.index_spec()
    &&& war_filter_hit(ids, w, st, start, tags)
    &&& o.start_date == start
    &&& o.end_date == (if is_active {
        None::<Date>
    } else {
        st.end
    })
    &&& o.days == (if is_active {
        save.save_date.index_spec() - start.index_spec()
    } else {
        (match st.end {
            Some(e) => e.index_spec(),
            None => save.save_date.index_spec(),
        }) - start.index_spec()
    })
    &&& o.battles == st.battles
    &&& o.attackers.original == w.original_attacker
    &&& o.attackers.original_name@ == display_name_spec(save.tag_names@, w.original_attacker)
    &&& o.attackers.members@ == st.attackers
    &&& o.attackers.losses@.len() == LOSS_CATEGORIES
    &&& (forall|c: int| 0 <= c < LOSS_CATEGORIES ==> (#[trigger] o.attackers.losses@[c]) as int
        == side_losses(
            w.participants@,
            added_tags(st.added_attackers),
            added_tags(st.added_defenders),
        )[c])
    &&& o.defenders.original == w.original_defender
    &&& o.defenders.original_name@ == display_name_spec(save.tag_names@, w.original_defender)
    &&& o.defenders.members@ == st.defenders
    &&& o.defenders.losses@.len() == LOSS_CATEGORIES
    &&& (forall|c: int| 0 <= c < LOSS_CATEGORIES ==> (#[trigger] o.defenders.losses@[c]) as int
        == defender_bucket(
            w.participants@,
            added_tags(st.added_attackers),
            added_tags(st.added_defenders),
        )[c])
}

pub(crate) fn find_tag(v: &Vec<Tag>, t: Tag) -> (r: bool)
    ensures
        r == v@.contains(t),
{
    let mut i: usize = 0;
    while i < v.len()
        invariant
            i <= v@.len(),
            forall|k: int| 0 <= k < i ==> v@[k] != t,
        decreases v@.len() - i,
    {
        if v[i].code == t.code {
            return true;
        }
        i = i + 1;
    }
    false
}

pub(crate) fn remove_tag_exec(v: &mut Vec<Tag>, t: Tag)
    ensures
        final(v)@ == set_remove(old(v)@, t),
{
    let ghost orig = old(v)@;
    let mut out: Vec<Tag> = Vec::new();
    let mut i: usize = 0;
    let mut found: bool = false;
    proof {
        assert(orig.skip(0) == orig);
    }
    while i < v.len()
        invariant
            orig == v@,
            i <= orig.len(),
            found ==> set_remove(orig, t) == out@ + orig.skip(i as int),
            !found ==> set_remove(orig, t) == out@ + set_remove(orig.skip(i as int), t),
        decreases orig.len() - i,
    {
        proof {
            assert(orig.skip(i as int)[0] == orig[i as int]);
            assert(orig.skip(i as int).drop_first() == orig.skip(i + 1));
            if !found && orig[i as int] != t {
                assert(seq![orig[i as int]] + set_remove(orig.skip(i + 1), t) == set_remove(
                    orig.skip(i as int),
                    t,
                ));
            }
        }
        if !found && v[i].code == t.code {
            found = true;
        } else {
            out.push(v[i]);
            proof {
                if found {
                    assert(out@ + orig.skip(i + 1) =~= out@.drop_last() + orig.skip(i as int));
                } else {
                    assert(out@ + set_remove(orig.skip(i + 1), t) =~= out@.drop_last() + (seq![
                        orig[i as int],
                    ] + set_remove(orig.skip(i + 1), t)));
                }
            }
        }
        i = i + 1;
    }
    proof {
        assert(orig.skip(orig.len() as int).len() == 0);
        assert(set_remove(orig.skip(orig.len() as int), t) == orig.skip(orig.len() as int));
        assert(out@ + orig.skip(orig.len() as int) =~= out@);
        assert(out@ + set_remove(orig.skip(orig.len() as int), t) =~= out@);
    }
    *v = out;
}

/// Walks one war's event log, maintaining member sets with set semantics,
/// the dated Add events, the battle count, and defensive running min/max
/// dates.
pub fn walk_war(w: &WarRecord) -> (r: (Vec<Tag>, Vec<Tag>, Vec<(Date, Tag)>, Vec<(Date, Tag)>,
    usize, Option<Date>, Option<Date>))
    requires
        w.wf(),
    ensures
        ({
            let st = war_walk(w.events@);
            &&& r.0@ == st.attackers
            &&& r.1@ == st.defenders
            &&& r.2@ == st.added_attackers
            &&& r.3@ == st.added_defenders
            &&& r.4 as int == st.battles
            &&& r.5 == st.start
            &&& r.6 == st.end
        }),
        match r.5 {
            Some(s) => s.wf(),
            None => true,
        },
        match r.6 {
            Some(e) => e.wf(),
            None => true,
        },
        forall|q: int| 0 <= q < r.2@.len() ==> (#[trigger] r.2@[q]).0.wf(),
        forall|q: int| 0 <= q < r.3@.len() ==> (#[trigger] r.3@[q]).0.wf(),
{
    let ghost evs = w.events@;
    let mut attackers: Vec<Tag> = Vec::new();
    let mut defenders: Vec<Tag> = Vec::new();
    let mut added_attackers: Vec<(Date, Tag)> = Vec::new();
    let mut added_defenders: Vec<(Date, Tag)> = Vec::new();
    let mut battles: usize = 0;
    let mut start: Option<Date> = None;
    let mut end: Option<Date> = None;
    let mut i: usize = 0;
    while i < w.events.len()
        invariant
            w.wf(),
            evs == w.events@,
            i <= evs.len(),
            battles <= i,
            ({
                let st = war_walk(evs.take(i as int));
                &&& attackers@ == st.attackers
                &&& defenders@ == st.defenders
                &&& added_attackers@ == st.added_attackers
                &&& added_defenders@ == st.added_defenders
                &&& battles as int == st.battles
                &&& start == st.start
                &&& end == st.end
            }),
            match start {
                Some(s) => s.wf(),
                None => true,
            },
            match end {
                Some(e) => e.wf(),
                None => true,
            },
            forall|q: int| 0 <= q < added_attackers@.len() ==> (
            #[trigger] added_attackers@[q]).0.wf(),
            forall|q: int| 0 <= q < added_defenders@.len() ==> (
            #[trigger] added_defenders@[q]).0.wf(),
        decreases evs.len() - i,
    {
        proof {
            assert(evs.take(i + 1).drop_last() == evs.take(i as int));
            assert(evs.take(i + 1).last() == evs[i as int]);
        }
        let d = w.events[i].date;
        start = match start {
            Some(c) => if d.lt(&c) {
                Some(d)
            } else {
                Some(c)
            },
            None => Some(d),
        };
        end = match end {
            Some(c) => if c.lt(&d) {
                Some(d)
            } else {
                Some(c)
            },
            None => Some(d),
        };
        match &w.events[i].kind {
            WarEventKind::AddAttacker(t) => {
                if !find_tag(&attackers, *t) {
                    attackers.push(*t);
                }
                added_attackers.push((d, *t));
            },
            WarEventKind::AddDefender(t) => {
                if !find_tag(&defenders, *t) {
                    defenders.push(*t);
                }
                added_defenders.push((d, *t));
            },
            WarEventKind::RemoveAttacker(t) => {
                remove_tag_exec(&mut attackers, *t);
            },
            WarEventKind::RemoveDefender(t) => {
                remove_tag_exec(&mut defenders, *t);
            },
            WarEventKind::Battle(_) => {
                battles = battles + 1;
            },
        }
        i = i + 1;
    }
    proof {
        assert(evs.take(evs.len() as int) == evs);
    }
    (attackers, defenders, added_attackers, added_defenders, battles, start, end)
}

/// Sums each bucketed participant's decoded losses: the attacker bucket is
/// final attacker membership; the defender bucket is final defender
/// membership without attacker membership.
fn bucket_losses(w: &WarRecord, attackers: &Vec<Tag>, defenders: &Vec<Tag>) -> (r: (Vec<u64>, Vec<
    u64,
>))
    requires
        w.wf(),
    ensures
        r.0@.len() == LOSS_CATEGORIES,
        r.1@.len() == LOSS_CATEGORIES,
        forall|c: int| 0 <= c < LOSS_CATEGORIES ==> (#[trigger] r.0@[c]) as int == side_losses(
            w.participants@,
            attackers@,
            defenders@,
        )[c],
        forall|c: int| 0 <= c < LOSS_CATEGORIES ==> (#[trigger] r.1@[c]) as int == defender_bucket(
            w.participants@,
            attackers@,
            defenders@,
        )[c],
{
    let ghost ps = w.participants@;
    let mut atk: Vec<u64> = Vec::new();
    let mut def: Vec<u64> = Vec::new();
    let mut c: usize = 0;
    while c < LOSS_CATEGORIES
        invariant
            c <= LOSS_CATEGORIES,
            atk.len() == c,
            def.len() == c,
            forall|q: int| 0 <= q < c ==> atk@[q] == 0 && def@[q] == 0,
        decreases LOSS_CATEGORIES - c,
    {
        atk.push(0u64);
        def.push(0u64);
        c = c + 1;
    }
    let mut i: usize = 0;
    proof {
        assert(ps.take(0int) == Seq::<WarParticipantRecord>::empty());
        lemma_buckets_len(ps.take(0int), attackers@, defenders@);
    }
    while i < w.participants.len()
        invariant
            w.wf(),
            ps == w.participants@,
            i <= ps.len(),
            atk.len() == LOSS_CATEGORIES,
            def.len() == LOSS_CATEGORIES,
            forall|q: int| 0 <= q < LOSS_CATEGORIES ==> (#[trigger] atk@[q]) as int == side_losses(
                ps.take(i as int),
                attackers@,
                defenders@,
            )[q] && atk@[q] <= (i as int) * 0xffff_ffff,
            forall|q: int| 0 <= q < LOSS_CATEGORIES ==> (#[trigger] def@[q]) as int
                == defender_bucket(ps.take(i as int), attackers@, defenders@)[q] && def@[q] <= (
            i as int) * 0xffff_ffff,
        decreases ps.len() - i,
    {
        proof {
            assert(ps.take(i + 1).drop_last() == ps.take(i as int));
            assert(ps.take(i + 1).last() == ps[i as int]);
            lemma_buckets_len(ps.take(i as int), attackers@, defenders@);
            lemma_buckets_len(ps.take(i + 1), attackers@, defenders@);
        }
        let p = &w.participants[i];
        let in_atk = find_tag(attackers, p.tag);
        let in_def = find_tag(defenders, p.tag);
        if in_atk || in_def {
            let dec = decode_losses(&p.raw_losses);
            let mut q: usize = 0;
            let ghost old_atk = atk@;
            let ghost old_def = def@;
            proof {
                assert((i as int) * 0xffff_ffff <= 0xffff_fffe * 0xffff_ffff) by (nonlinear_arith)
                    requires 0 <= i <= 0xffff_fffe;
            }
            let ghost mul_bound: int = (i as int) * 0xffff_ffff;
            while q < LOSS_CATEGORIES
                invariant
                    q <= LOSS_CATEGORIES,
                    atk.len() == LOSS_CATEGORIES,
                    def.len() == LOSS_CATEGORIES,
                    dec@.len() == LOSS_CATEGORIES,
                    in_atk == attackers@.contains(ps[i as int].tag),
                    in_def == defenders@.contains(ps[i as int].tag),
                    in_atk || in_def,
                    0 <= i < ps.len(),
                    ps.len() < 0x1_0000_0000,
                    forall|z: int| 0 <= z < LOSS_CATEGORIES ==> (#[trigger] dec@[z]) as int
                        == decoded_at(ps[i as int].raw_losses@, z),
                    mul_bound == (i as int) * 0xffff_ffff,
                    mul_bound <= 0xffff_fffe * 0xffff_ffff,
                    forall|z: int| 0 <= z < LOSS_CATEGORIES ==> (#[trigger] old_atk[z]) <= mul_bound,
                    forall|z: int| 0 <= z < LOSS_CATEGORIES ==> (#[trigger] old_def[z]) <= mul_bound,
                    forall|z: int| q <= z < LOSS_CATEGORIES ==> (#[trigger] atk@[z]) == old_atk[z],
                    forall|z: int| q <= z < LOSS_CATEGORIES ==> (#[trigger] def@[z]) == old_def[z],
                    forall|z: int| 0 <= z < q ==> (#[trigger] atk@[z]) as int == (if in_atk {
                        old_atk[z] + dec@[z]
                    } else {
                        old_atk[z] as int
                    }),
                    forall|z: int| 0 <= z < q ==> (#[trigger] def@[z]) as int == (if !in_atk
                        && in_def {
                        old_def[z] + dec@[z]
                    } else {
                        old_def[z] as int
                    }),
                decreases LOSS_CATEGORIES - q,
            {
                proof {
                    assert(atk@[q as int] == old_atk[q as int]);
                    assert(def@[q as int] == old_def[q as int]);
                }
                if in_atk {
                    let v = atk[q] + dec[q] as u64;
                    atk.set(q, v);
                } else {
                    let v = def[q] + dec[q] as u64;
                    def.set(q, v);
                }
                q = q + 1;
            }
        }
        i = i + 1;
    }
    proof {
        assert(ps.take(ps.len() as int) == ps);
    }
    (atk, def)
}

/// The emitted summary reconstructs one of the save's wars — a previous war
/// or an active one — that passed every guard: non-empty name, a real
/// original attacker, a start no earlier than the campaign start, and a
/// filter hit.
pub open spec fn emitted_war_ok(
    save: SaveModel,
    ids: Seq<Identity>,
    tags: Seq<Tag>,
    o: WarOverview,
) -> bool {
    ||| exists|k: int|
        0 <= k < save.previous_wars@.len() && is_overview_of(
            save,
            ids,
            #[trigger] save.previous_wars@[k],
            tags,
            false,
            o,
        )
    ||| exists|k: int|
        0 <= k < save.active_wars@.len() && is_overview_of(
            save,
            ids,
            #[trigger] save.active_wars@[k],
            tags,
            true,
            o,
        )
}

/// No emitted war has an empty name or an original attacker equal to the
/// reserved "no entity" sentinel: malformed records are silently dropped,
/// whatever their event content.
pub proof fn lemma_emitted_wars_wellformed(
    save: SaveModel,
    ids: Seq<Identity>,
    tags: Seq<Tag>,
    o: WarOverview,
)
    requires
        emitted_war_ok(save, ids, tags, o),
    ensures
        o.name@.len() > 0,
        o.attackers.original != crate::tags::no_entity_spec(),
{
}

fn war_overview(
    save: &SaveModel,
    index: &IdentityIndex,
    tags: &Vec<Tag>,
    w: &WarRecord,
    is_active: bool,
) -> (r: Option<WarOverview>)
    requires
        save.wf(),
        index.wf(),
        index.corresponds(*save),
        w.wf(),
    ensures
        match r {
            Some(o) => war_qualifies(*save, index.identities@, tags@, *w) && is_overview_of(
                *save,
                index.identities@,
                *w,
                tags@,
                is_active,
                o,
            ),
            None => !war_qualifies(*save, index.identities@, tags@, *w),
        },
{
    let ghost ids = index.identities@;
    if w.name.as_str().is_empty() {
        return None;
    }
    if w.original_attacker.code == Tag::no_entity().code {
        return None;
    }
    let (attackers, defenders, added_attackers, added_defenders, battles, wstart, wend) = walk_war(
        w,
    );
    let start: Date = match &wstart {
        Some(s) => *s,
        None => save.start_date,
    };
    if start.lt(&save.start_date) {
        return None;
    }
    let ghost st = war_walk(w.events@);
    let mut hit: bool = find_tag(tags, index.resolve(w.original_attacker, start)) || find_tag(
        tags,
        index.resolve(w.original_defender, start),
    );
    let mut i: usize = 0;
    while i < added_attackers.len()
        invariant
            save.wf(),
            index.wf(),
            ids == index.identities@,
            added_attackers@ == st.added_attackers,
            forall|q: int| 0 <= q < added_attackers@.len() ==> (
            #[trigger] added_attackers@[q]).0.wf(),
            i <= added_attackers@.len(),
            hit == ({
                ||| tags@.contains(resolve_out(ids, w.original_attacker, start))
                ||| tags@.contains(resolve_out(ids, w.original_defender, start))
                ||| exists|q: int|
                    0 <= q < i && tags@.contains(
                        resolve_out(
                            ids,
                            (#[trigger] st.added_attackers[q]).1,
                            st.added_attackers[q].0,
                        ),
                    )
            }),
        decreases added_attackers@.len() - i,
    {
        if !hit {
            if find_tag(tags, index.resolve(added_attackers[i].1, added_attackers[i].0)) {
                hit = true;
            }
        }
        i = i + 1;
    }
    let mut j: usize = 0;
    while j < added_defenders.len()
        invariant
            save.wf(),
            index.wf(),
            ids == index.identities@,
            added_attackers@ == st.added_attackers,
            added_defenders@ == st.added_defenders,
            forall|q: int| 0 <= q < added_defenders@.len() ==> (
            #[trigger] added_defenders@[q]).0.wf(),
            j <= added_defenders@.len(),
            hit == ({
                ||| tags@.contains(resolve_out(ids, w.original_attacker, start))
                ||| tags@.contains(resolve_out(ids, w.original_defender, start))
                ||| exists|q: int|
                    0 <= q < st.added_attackers.len() && tags@.contains(
                        resolve_out(
                            ids,
                            (#[trigger] st.added_attackers[q]).1,
                            st.added_attackers[q].0,
                        ),
                    )
                ||| exists|q: int|
                    0 <= q < j && tags@.contains(
                        resolve_out(
                            ids,
                            (#[trigger] st.added_defenders[q]).1,
                            st.added_defenders[q].0,
                        ),
                    )
            }),
        decreases added_defenders@.len() - j,
    {
        if !hit {
            if find_tag(tags, index.resolve(added_defenders[j].1, added_defenders[j].0)) {
                hit = true;
            }
        }
        j = j + 1;
    }
    if !hit {
        return None;
    }
    let mut ever_atk: Vec<Tag> = Vec::new();
    let mut ai: usize = 0;
    while ai < added_attackers.len()
        invariant
            added_attackers@ == st.added_attackers,
            ai <= added_attackers@.len(),
            ever_atk@.len() == ai,
            forall|q: int| 0 <= q < ai ==> ever_atk@[q] == (#[trigger] added_attackers@[q]).1,
        decreases added_attackers@.len() - ai,
    {
        ever_atk.push(added_attackers[ai].1);
        ai = ai + 1;
    }
    let mut ever_def: Vec<Tag> = Vec::new();
    let mut di: usize = 0;
    while di < added_defenders.len()
        invariant
            added_defenders@ == st.added_defenders,
            di <= added_defenders@.len(),
            ever_def@.len() == di,
            forall|q: int| 0 <= q < di ==> ever_def@[q] == (#[trigger] added_defenders@[q]).1,
        decreases added_defenders@.len() - di,
    {
        ever_def.push(added_defenders[di].1);
        di = di + 1;
    }
    proof {
        assert(ever_atk@ =~= added_tags(st.added_attackers));
        assert(ever_def@ =~= added_tags(st.added_defenders));
    }
    let (atk_losses, def_losses) = bucket_losses(w, &ever_atk, &ever_def);
    let days: i32 = if is_active {
        start.days_until(&save.save_date)
    } else {
        match &wend {
            Some(e) => start.days_until(e),
            None => start.days_until(&save.save_date),
        }
    };
    Some(
        WarOverview {
            name: w.name.clone(),
            start_date: start,
            end_date: if is_active {
                None
            } else {
                wend
            },
            days,
            battles,
            attackers: WarSide {
                original: w.original_attacker,
                original_name: display_name(&save.tag_names, w.original_attacker),
                members: attackers,
                losses: atk_losses,
            },
            defenders: WarSide {
                original: w.original_defender,
                original_name: display_name(&save.tag_names, w.original_defender),
                members: defenders,
                losses: def_losses,
            },
        },
    )
}

/// Reconstructs every well-formed war that the tag filter hits: previous
/// wars first, then active wars. Malformed records (empty name, sentinel
/// attacker) and wars starting before the campaign are silently dropped.
pub fn wars(save: &SaveModel, index: &IdentityIndex, payload: &TagFilterPayload) -> (r: Vec<
    WarOverview,
>)
    requires
        save.wf(),
        index.wf(),
        index.corresponds(*save),
    ensures
        ({
            let ids = index.identities@;
            let tags = matching_seq(save.countries@, payload.ai);
            let qp = qualifying(*save, ids, tags, save.previous_wars@);
            let qa = qualifying(*save, ids, tags, save.active_wars@);
            &&& r@.len() == qp.len() + qa.len()
            &&& (forall|i: int| 0 <= i < qp.len() ==> is_overview_of(
                *save,
                ids,
                qp[i],
                tags,
                false,
                #[trigger] r@[i],
            ))
            &&& (forall|i: int| 0 <= i < qa.len() ==> is_overview_of(
                *save,
                ids,
                qa[i],
                tags,
                true,
                #[trigger] r@[qp.len() + i],
            ))
        }),
        forall|i: int| 0 <= i < r@.len() ==> emitted_war_ok(
            *save,
            index.identities@,
            matching_seq(save.countries@, payload.ai),
            #[trigger] r@[i],
        ),
{
    let ghost ids = index.identities@;
    let tags = matching_tags(save, payload.ai);
    let ghost qpred = |w: WarRecord| war_qualifies(*save, ids, tags@, w);
    let mut result: Vec<WarOverview> = Vec::new();
    let mut i: usize = 0;
    proof {
        assert(save.previous_wars@.take(0int) == Seq::<WarRecord>::empty());
        reveal_with_fuel(Seq::filter, 2);
    }
    while i < save.previous_wars.len()
        invariant
            save.wf(),
            index.wf(),
            index.corresponds(*save),
            ids == index.identities@,
            tags@ == matching_seq(save.countries@, payload.ai),
            qpred == (|w: WarRecord| war_qualifies(*save, ids, tags@, w)),
            i <= save.previous_wars@.len(),
            result@.len() == save.previous_wars@.take(i as int).filter(qpred).len(),
            forall|q: int| 0 <= q < result@.len() ==> is_overview_of(
                *save,
                ids,
                save.previous_wars@.take(i as int).filter(qpred)[q],
                tags@,
                false,
                #[trigger] result@[q],
            ),
            forall|q: int| 0 <= q < result@.len() ==> emitted_war_ok(
                *save,
                ids,
                tags@,
                #[trigger] result@[q],
            ),
        decreases save.previous_wars@.len() - i,
    {
        proof {
            assert(save.previous_wars@.take(i + 1).drop_last() == save.previous_wars@.take(
                i as int,
            ));
            assert(save.previous_wars@.take(i + 1).last() == save.previous_wars@[i as int]);
            reveal_with_fuel(Seq::filter, 2);
        }
        match war_overview(save, index, &tags, &save.previous_wars[i], false) {
            Some(o) => {
                result.push(o);
            },
            None => {},
        }
        i = i + 1;
    }
    proof {
        assert(save.previous_wars@.take(save.previous_wars@.len() as int)
            == save.previous_wars@);
    }
    let ghost qp = save.previous_wars@.filter(qpred);
    let mut j: usize = 0;
    proof {
        assert(save.active_wars@.take(0int) == Seq::<WarRecord>::empty());
        reveal_with_fuel(Seq::filter, 2);
    }
    while j < save.active_wars.len()
        invariant
            save.wf(),
            index.wf(),
            index.corresponds(*save),
            ids == index.identities@,
            tags@ == matching_seq(save.countries@, payload.ai),
            qpred == (|w: WarRecord| war_qualifies(*save, ids, tags@, w)),
            qp == save.previous_wars@.filter(qpred),
            j <= save.active_wars@.len(),
            result@.len() == qp.len() + save.active_wars@.take(j as int).filter(qpred).len(),
            forall|q: int| 0 <= q < qp.len() ==> is_overview_of(
                *save,
                ids,
                qp[q],
                tags@,
                false,
                #[trigger] result@[q],
            ),
            forall|q: int| 0 <= q < save.active_wars@.take(j as int).filter(qpred).len()
                ==> is_overview_of(
                *save,
                ids,
                save.active_wars@.take(j as int).filter(qpred)[q],
                tags@,
                true,
                #[trigger] result@[qp.len() + q],
            ),
            forall|q: int| 0 <= q < result@.len() ==> emitted_war_ok(
                *save,
                ids,
                tags@,
                #[trigger] result@[q],
            ),
        decreases save.active_wars@.len() - j,
    {
        proof {
            assert(save.active_wars@.take(j + 1).drop_last() == save.active_wars@.take(j as int));
            assert(save.active_wars@.take(j + 1).last() == save.active_wars@[j as int]);
            reveal_with_fuel(Seq::filter, 2);
        }
        match war_overview(save, index, &tags, &save.active_wars[j], true) {
            Some(o) => {
                result.push(o);
            },
            None => {},
        }
        j = j + 1;
    }
    proof {
        assert(save.active_wars@.take(save.active_wars@.len() as int) == save.active_wars@);
    }
    result
}

/// One war a country took part in, with its decoded losses and its share of
/// the war's total participation weight.
pub struct CountryCasualties {
    pub war: String,
    pub losses: Vec<u32>,
    pub participation: u32,
    /// The participation share, in basis points (1/100 of a percent),
    /// rounded down; zero when the war records no participation weight.
    pub participation_basis_points: u64,
    pub start: Option<Date>,
    pub end: Option<Date>,
}

/// The first participant entry fighting under `t`, if any.
pub open spec fn find_participant(ps: Seq<WarParticipantRecord>, t: Tag) -> Option<int>
    decreases ps.len(),
{
    if ps.len() == 0 {
        None::<int>
    } else if ps[0].tag == t {
        Some(0int)
    } else {
        match find_participant(ps.drop_first(), t) {
            Some(i) => Some(i + 1),
            None => None,
        }
    }
}

pub proof fn lemma_find_participant_in_range(ps: Seq<WarParticipantRecord>, t: Tag)
    ensures
        match find_participant(ps, t) {
            Some(i) => 0 <= i < ps.len() && ps[i].tag == t,
            None => true,
        },
    decreases ps.len(),
{
    if ps.len() > 0 && ps[0].tag != t {
        lemma_find_participant_in_range(ps.drop_first(), t);
    }
}

/// A participant's participation weight.
pub open spec fn participation_weight() -> spec_fn(WarParticipantRecord) -> int {
    |p: WarParticipantRecord| p.participation as int
}

/// A share in basis points, rounded down; zero without any weight.
pub open spec fn basis_points(value: int, total: int) -> int {
    if total > 0 {
        value * 10000 / total
    } else {
        0
    }
}

/// The casualty entry war `w` owes the first participant under `t`.
pub open spec fn is_casualties_of(w: WarRecord, t: Tag, e: CountryCasualties) -> bool {
    match find_participant(w.participants@, t) {
        Some(j) => {
            let p = w.participants@[j];
            &&& e.war@ == w.name@
            &&& e.losses@.len() == LOSS_CATEGORIES
            &&& (forall|c: int| 0 <= c < LOSS_CATEGORIES ==> (#[trigger] e.losses@[c]) as int
                == decoded_at(p.raw_losses@, c))
            &&& e.participation == p.participation
            &&& e.participation_basis_points as int == basis_points(
                p.participation as int,
                crate::order::seq_sum(w.participants@, participation_weight()),
            )
            &&& e.start == war_walk(w.events@).start
            &&& e.end == war_walk(w.events@).end
        },
        None => false,
    }
}

/// The previous wars the country took part in, in save order.
pub open spec fn fought_wars(ws: Seq<WarRecord>, t: Tag) -> Seq<WarRecord> {
    ws.filter(|w: WarRecord| find_participant(w.participants@, t) is Some)
}

/// For each previous war the country took part in, its decoded losses,
/// participation weight and share, and the war's start and end dates,
/// computed defensively as the running minimum and maximum of its event
/// dates.
pub fn get_country_casualties(save: &SaveModel, t: Tag) -> (r: Vec<CountryCasualties>)
    requires
        save.wf(),
    ensures
        r@.len() == fought_wars(save.previous_wars@, t).len(),
        forall|i: int| 0 <= i < r@.len() ==> is_casualties_of(
            fought_wars(save.previous_wars@, t)[i],
            t,
            #[trigger] r@[i],
        ),
{
    let ghost fpred = |w: WarRecord| find_participant(w.participants@, t) is Some;
    let mut r: Vec<CountryCasualties> = Vec::new();
    let mut k: usize = 0;
    proof {
        assert(save.previous_wars@.take(0int) == Seq::<WarRecord>::empty());
        reveal_with_fuel(Seq::filter, 2);
    }
    while k < save.previous_wars.len()
        invariant
            save.wf(),
            k <= save.previous_wars@.len(),
            fpred == (|w: WarRecord| find_participant(w.participants@, t) is Some),
            r@.len() == save.previous_wars@.take(k as int).filter(fpred).len(),
            forall|i: int| 0 <= i < r@.len() ==> is_casualties_of(
                save.previous_wars@.take(k as int).filter(fpred)[i],
                t,
                #[trigger] r@[i],
            ),
        decreases save.previous_wars@.len() - k,
    {
        proof {
            assert(save.previous_wars@.take(k + 1).drop_last() == save.previous_wars@.take(
                k as int,
            ));
            assert(save.previous_wars@.take(k + 1).last() == save.previous_wars@[k as int]);
            reveal_with_fuel(Seq::filter, 2);
        }
        let w = &save.previous_wars[k];
        let ghost ps = w.participants@;
        proof {
            assert(ps.skip(0) == ps);
            lemma_find_participant_in_range(ps, t);
        }
        let mut j: usize = 0;
        let mut found: Option<usize> = None;
        while j < w.participants.len() && found.is_none()
            invariant
                ps == w.participants@,
                j <= ps.len(),
                match found {
                    Some(f) => find_participant(ps, t) == Some(f as int),
                    None => find_participant(ps, t) == match find_participant(
                        ps.skip(j as int),
                        t,
                    ) {
                        Some(q) => Some(q + j),
                        None => None::<int>,
                    },
                },
            decreases ps.len() - j + (if found is None {
                1int
            } else {
                0int
            }),
        {
            proof {
                assert(ps.skip(j as int)[0] == ps[j as int]);
                assert(ps.skip(j as int).drop_first() == ps.skip(j + 1));
            }
            if w.participants[j].tag.code == t.code {
                found = Some(j);
            } else {
                j = j + 1;
            }
        }
        proof {
            if found is None {
                assert(ps.skip(ps.len() as int).len() == 0);
            }
        }
        match found {
            Some(f) => {
                let p = &w.participants[f];
                let mut total: u64 = 0;
                let mut q: usize = 0;
                proof {
                    assert(ps.take(0int) == Seq::<WarParticipantRecord>::empty());
                }
                while q < w.participants.len()
                    invariant
                        w.wf(),
                        ps == w.participants@,
                        q <= ps.len(),
                        ps.len() < 0x1_0000_0000,
                        total as int == crate::order::seq_sum(
                            ps.take(q as int),
                            participation_weight(),
                        ),
                        total <= (q as int) * 0xffff_ffff,
                    decreases ps.len() - q,
                {
                    proof {
                        assert(ps.take(q + 1).drop_last() == ps.take(q as int));
                        assert(ps.take(q + 1).last() == ps[q as int]);
                        assert((q as int) * 0xffff_ffff <= 0xffff_fffe * 0xffff_ffff)
                            by (nonlinear_arith)
                            requires 0 <= q <= 0xffff_fffe;
                    }
                    total = total + w.participants[q].participation as u64;
                    q = q + 1;
                }
                proof {
                    assert(ps.take(ps.len() as int) == ps);
                }
                let bp: u64 = if total > 0 {
                    (p.participation as u64) * 10000 / total
                } else {
                    0
                };
                let (_atk, _def, _aa, _ad, _battles, start, end) = walk_war(w);
                let entry = CountryCasualties {
                    war: w.name.clone(),
                    losses: decode_losses(&p.raw_losses),
                    participation: p.participation,
                    participation_basis_points: bp,
                    start,
                    end,
                };
                proof {
                    assert(is_casualties_of(save.previous_wars@[k as int], t, entry));
                }
                r.push(entry);
            },
            None => {},
        }
        k = k + 1;
    }
    proof {
        assert(save.previous_wars@.take(save.previous_wars@.len() as int)
            == save.previous_wars@);
    }
    r
}

/// A country's accumulated war losses, decoded, with its display name.
pub struct LocalizedCasualties {
    pub tag: Tag,
    pub name: String,
    pub losses: Vec<u32>,
}

/// Decoded accumulated losses for every country the filter admits, in save
/// order, each with its localized display name.
pub fn countries_war_losses(save: &SaveModel, payload: &TagFilterPayload) -> (r: Vec<
    LocalizedCasualties,
>)
    requires
        save.wf(),
    ensures
        r@.len() == matching_seq(save.countries@, payload.ai).len(),
        forall|i: int|
            0 <= i < r@.len() ==> {
                let t = matching_seq(save.countries@, payload.ai)[i];
                &&& (#[trigger] r@[i]).tag == t
                &&& r@[i].name@ == display_name_spec(save.tag_names@, t)
                &&& r@[i].losses@.len() == LOSS_CATEGORIES
                &&& match crate::commanders::find_country(save.countries@, t) {
                    Some(k) => forall|c: int| 0 <= c < LOSS_CATEGORIES ==> (
                    #[trigger] r@[i].losses@[c]) as int == decoded_at(
                        save.countries@[k].raw_losses@,
                        c,
                    ),
                    None => false,
                }
            },
{
    let ghost tags_spec = matching_seq(save.countries@, payload.ai);
    let mut r: Vec<LocalizedCasualties> = Vec::new();
    let mut i: usize = 0;
    while i < save.countries.len()
        invariant
            save.wf(),
            i <= save.countries@.len(),
            tags_spec == matching_seq(save.countries@, payload.ai),
            r@.len() == matching_seq(save.countries@.take(i as int), payload.ai).len(),
            forall|q: int|
                0 <= q < r@.len() ==> {
                    let t = matching_seq(save.countries@.take(i as int), payload.ai)[q];
                    &&& (#[trigger] r@[q]).tag == t
                    &&& r@[q].name@ == display_name_spec(save.tag_names@, t)
                    &&& r@[q].losses@.len() == LOSS_CATEGORIES
                    &&& match crate::commanders::find_country(save.countries@, t) {
                        Some(k) => forall|c: int| 0 <= c < LOSS_CATEGORIES ==> (
                        #[trigger] r@[q].losses@[c]) as int == decoded_at(
                            save.countries@[k].raw_losses@,
                            c,
                        ),
                        None => false,
                    }
                },
        decreases save.countries@.len() - i,
    {
        proof {
            assert(save.countries@.take(i + 1).drop_last() == save.countries@.take(i as int));
            assert(save.countries@.take(i + 1).last() == save.countries@[i as int]);
        }
        let c = &save.countries[i];
        if crate::ledger::country_matches_pub(c, payload.ai) {
            proof {
                crate::commanders::lemma_find_country_unique(
                    save.countries@,
                    save.countries@[i as int].stored_tag,
                    i as int,
                );
            }
            r.push(
                LocalizedCasualties {
                    tag: c.stored_tag,
                    name: display_name(&save.tag_names, c.stored_tag),
                    losses: decode_losses(&c.raw_losses),
                },
            );
        }
        i = i + 1;
    }
    proof {
        assert(save.countries@.take(save.countries@.len() as int) == save.countries@);
    }
    r
}

} // verus!
