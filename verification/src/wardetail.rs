//! The deep-dive war query: re-walks one war's event log to reconstruct,
//! per battle, unit composition, strengths and commander identification,
//! and per participant, decoded losses, join/exit dates clipped to the war
//! interval, and participation shares against the side's total weight.
//!
//! Side assignment is by ever-added attacker tags (a participant an
//! AddAttacker event ever named sits on the attacker side, everyone else on
//! the defender side). Commander stats are memoized per distinct commander
//! name for the duration of one call: the first battle naming a commander
//! computes the stats over that side's current members at that battle's
//! date, and every later battle naming the same commander reuses that
//! value; the memo table does not outlive the call.

use crate::commanders::{commander_stats_spec, get_commander_stats, CommanderStats};
use crate::dates::Date;
use crate::identity::{resolve_spec, Identity, IdentityIndex};
use crate::ledger::{display_name, display_name_spec};
use crate::losses::{decode_losses, decoded_at, LOSS_CATEGORIES};
use crate::model::{
    BattleRecord, BattleSideRecord, CountryRecord, SaveModel, WarEvent, WarEventKind,
    WarParticipantRecord, WarRecord,
};
use crate::order::seq_sum;
use crate::tags::Tag;
use crate::wars::{
    added_tags, basis_points, find_tag, remove_tag_exec, set_insert, set_remove, walk_war,
    war_walk,
};
use vstd::prelude::*;

verus! {

/// One side of a reconstructed battle.
pub struct BattleSideView {
    pub infantry: u32,
    pub cavalry: u32,
    pub artillery: u32,
    pub heavy_ship: u32,
    pub light_ship: u32,
    pub galley: u32,
    pub transport: u32,
    pub losses: i32,
    pub country: Tag,
    pub country_name: String,
    pub commander: Option<String>,
    pub commander_stats: Option<CommanderStats>,
}

/// One reconstructed battle, with combined forces and losses.
pub struct BattleView {
    pub name: String,
    pub date: Date,
    pub location: u16,
    pub attacker_won: bool,
    pub winner_alliance: u32,
    pub loser_alliance: u32,
    pub attacker: BattleSideView,
    pub defender: BattleSideView,
    pub forces: u64,
    pub losses: i64,
}

/// One war participant, with join/exit dates clipped to the war interval
/// and its share of the side's participation weight in basis points.
pub struct WarParticipantView {
    pub tag: Tag,
    pub name: String,
    pub participation: u32,
    pub participation_basis_points: u64,
    pub losses: Vec<u32>,
    pub joined: Option<Date>,
    pub exited: Option<Date>,
}

/// The deep-dive reconstruction of one war.
pub struct WarDetail {
    pub battles: Vec<BattleView>,
    pub attackers: Vec<WarParticipantView>,
    pub defenders: Vec<WarParticipantView>,
}

/// The first war of a list with the given name.
pub open spec fn find_war_in(ws: Seq<WarRecord>, name: Seq<char>) -> Option<int>
    decreases ws.len(),
{
    if ws.len() == 0 {
        None::<int>
    } else if ws[0].name@ == name {
        Some(0int)
    } else {
        match find_war_in(ws.drop_first(), name) {
            Some(i) => Some(i + 1),
            None => None,
        }
    }
}

pub proof fn lemma_find_war_in_range(ws: Seq<WarRecord>, name: Seq<char>)
    ensures
        match find_war_in(ws, name) {
            Some(i) => 0 <= i < ws.len() && ws[i].name@ == name,
            None => true,
        },
    decreases ws.len(),
{
    if ws.len() > 0 && ws[0].name@ != name {
        lemma_find_war_in_range(ws.drop_first(), name);
    }
}

/// Some war of the save carries this name.
pub open spec fn war_named(save: SaveModel, name: Seq<char>) -> bool {
    find_war_in(save.active_wars@, name) is Some || find_war_in(save.previous_wars@, name)
        is Some
}

/// The war the query answers for: the first active war with the name, else
/// the first previous war with it.
pub open spec fn first_war_named(save: SaveModel, name: Seq<char>) -> WarRecord {
    match find_war_in(save.active_wars@, name) {
        Some(i) => save.active_wars@[i],
        None => match find_war_in(save.previous_wars@, name) {
            Some(i) => save.previous_wars@[i],
            None => save.active_wars@[0],
        },
    }
}

/// Fail-soft resolution to the owning identity's stored tag.
pub open spec fn stored_of(ids: Seq<Identity>, t: Tag, d: Date) -> Tag {
    match resolve_spec(ids, t, d) {
        Some(r) => r.stored,
        None => t,
    }
}

/// The attacker member set (stored identities, set semantics) after a
/// prefix of the event log.
pub open spec fn atk_members(ids: Seq<Identity>, evs: Seq<WarEvent>) -> Seq<Tag>
    decreases evs.len(),
{
    if evs.len() == 0 {
        Seq::<Tag>::empty()
    } else {
        let rest = atk_members(ids, evs.drop_last());
        match evs.last().kind {
            WarEventKind::AddAttacker(t) => set_insert(rest, stored_of(ids, t, evs.last().date)),
            WarEventKind::RemoveAttacker(t) => set_remove(rest, stored_of(ids, t, evs.last().date)),
            _ => rest,
        }
    }
}

/// The defender member set after a prefix of the event log.
pub open spec fn def_members(ids: Seq<Identity>, evs: Seq<WarEvent>) -> Seq<Tag>
    decreases evs.len(),
{
    if evs.len() == 0 {
        Seq::<Tag>::empty()
    } else {
        let rest = def_members(ids, evs.drop_last());
        match evs.last().kind {
            WarEventKind::AddDefender(t) => set_insert(rest, stored_of(ids, t, evs.last().date)),
            WarEventKind::RemoveDefender(t) => set_remove(rest, stored_of(ids, t, evs.last().date)),
            _ => rest,
        }
    }
}

/// What one battle of the log pins down: its record, its date, and each
/// side's current members when it was fought.
pub struct BattleFacts {
    pub date: Date,
    pub rec: BattleRecord,
    pub atk: Seq<Tag>,
    pub def: Seq<Tag>,
}

/// The battles of the log, in log order, each with the member sets current
/// at its event.
pub open spec fn battle_facts(ids: Seq<Identity>, evs: Seq<WarEvent>) -> Seq<BattleFacts>
    decreases evs.len(),
{
    if evs.len() == 0 {
        Seq::<BattleFacts>::empty()
    } else {
        let rest = battle_facts(ids, evs.drop_last());
        match evs.last().kind {
            WarEventKind::Battle(b) => rest.push(
                BattleFacts {
                    date: evs.last().date,
                    rec: b,
                    atk: atk_members(ids, evs.drop_last()),
                    def: def_members(ids, evs.drop_last()),
                },
            ),
            _ => rest,
        }
    }
}

/// All Add events' dated tags, in log order (both sides; a later Add of the
/// same tag overwrites its join date).
pub open spec fn adds_of(evs: Seq<WarEvent>) -> Seq<(Date, Tag)>
    decreases evs.len(),
{
    if evs.len() == 0 {
        Seq::<(Date, Tag)>::empty()
    } else {
        let rest = adds_of(evs.drop_last());
        match evs.last().kind {
            WarEventKind::AddAttacker(t) => rest.push((evs.last().date, t)),
            WarEventKind::AddDefender(t) => rest.push((evs.last().date, t)),
            _ => rest,
        }
    }
}

/// All Remove events' dated tags, in log order.
pub open spec fn removes_of(evs: Seq<WarEvent>) -> Seq<(Date, Tag)>
    decreases evs.len(),
{
    if evs.len() == 0 {
        Seq::<(Date, Tag)>::empty()
    } else {
        let rest = removes_of(evs.drop_last());
        match evs.last().kind {
            WarEventKind::RemoveAttacker(t) => rest.push((evs.last().date, t)),
            WarEventKind::RemoveDefender(t) => rest.push((evs.last().date, t)),
            _ => rest,
        }
    }
}

/// The date the latest entry for `t` carries, if any.
pub open spec fn last_assoc(s: Seq<(Date, Tag)>, t: Tag) -> Option<Date>
    decreases s.len(),
{
    if s.len() == 0 {
        None::<Date>
    } else if s.last().1 == t {
        Some(s.last().0)
    } else {
        last_assoc(s.drop_last(), t)
    }
}

/// The spec-level forces total of one battle side.
pub open spec fn side_forces(r: BattleSideRecord) -> int {
    r.infantry + r.cavalry + r.artillery + r.heavy_ship + r.light_ship + r.galley + r.transport
}

/// One entry of a call's commander-stat memo: a commander name with the
/// stats computed at the first battle that named it.
pub struct MemoEntry {
    pub name: Seq<char>,
    pub stats: Option<CommanderStats>,
}

/// The memo entry for a name, if one exists (entries are never overwritten,
/// so the first is the only one).
pub open spec fn memo_lookup(m: Seq<MemoEntry>, n: Seq<char>) -> Option<Option<CommanderStats>>
    decreases m.len(),
{
    if m.len() == 0 {
        None::<Option<CommanderStats>>
    } else if m[0].name == n {
        Some(m[0].stats)
    } else {
        memo_lookup(m.drop_first(), n)
    }
}

/// One side's commander stats under the per-call memo: no commander gives
/// none; a memoized name reuses the value its first battle computed; a new
/// name is computed over this side's current members at this battle's date
/// and cached.
pub open spec fn side_stats(
    cs: Seq<CountryRecord>,
    memo: Seq<MemoEntry>,
    members: Seq<Tag>,
    date: Date,
    commander: Option<String>,
) -> (Option<CommanderStats>, Seq<MemoEntry>) {
    match commander {
        None => (None::<CommanderStats>, memo),
        Some(n) => match memo_lookup(memo, n@) {
            Some(v) => (v, memo),
            None => (
                commander_stats_spec(cs, members, date, n@),
                memo.push(
                    MemoEntry { name: n@, stats: commander_stats_spec(cs, members, date, n@) },
                ),
            ),
        },
    }
}

/// A memoized name's lookup reuses its cached stats and leaves the memo
/// unchanged.
proof fn lemma_side_stats_cached(
    cs: Seq<CountryRecord>,
    memo: Seq<MemoEntry>,
    members: Seq<Tag>,
    date: Date,
    commander: Option<String>,
    i: int,
)
    requires
        commander is Some,
        0 <= i < memo.len(),
        memo_lookup(memo, commander->0@) == Some(memo[i].stats),
    ensures
        side_stats(cs, memo, members, date, commander) == (memo[i].stats, memo),
{
}

/// The per-battle commander stats of one deep-dive call: the battles in log
/// order, the attacker side before the defender side of each, threading one
/// memo table through the whole call.
pub open spec fn battle_stats(cs: Seq<CountryRecord>, bfs: Seq<BattleFacts>) -> (Seq<
    (Option<CommanderStats>, Option<CommanderStats>),
>, Seq<MemoEntry>)
    decreases bfs.len(),
{
    if bfs.len() == 0 {
        (
            Seq::<(Option<CommanderStats>, Option<CommanderStats>)>::empty(),
            Seq::<MemoEntry>::empty(),
        )
    } else {
        let prev = battle_stats(cs, bfs.drop_last());
        let bf = bfs.last();
        let a = side_stats(cs, prev.1, bf.atk, bf.date, bf.rec.attacker.commander);
        let d = side_stats(cs, a.1, bf.def, bf.date, bf.rec.defender.commander);
        (prev.0.push((a.0, d.0)), d.1)
    }
}

/// The stats fold yields one pair per battle.
pub proof fn lemma_battle_stats_len(cs: Seq<CountryRecord>, bfs: Seq<BattleFacts>)
    ensures
        battle_stats(cs, bfs).0.len() == bfs.len(),
    decreases bfs.len(),
{
    if bfs.len() > 0 {
        lemma_battle_stats_len(cs, bfs.drop_last());
    }
}

/// One battle side view is the record's fields plus the localized country
/// name and, when the record names a commander, the stats the per-call memo
/// assigns that commander at this battle.
pub open spec fn side_view_ok(
    save: SaveModel,
    stats: Option<CommanderStats>,
    rec: BattleSideRecord,
    v: BattleSideView,
) -> bool {
    &&& v.infantry == rec.infantry
    &&& v.cavalry == rec.cavalry
    &&& v.artillery == rec.artillery
    &&& v.heavy_ship == rec.heavy_ship
    &&& v.light_ship == rec.light_ship
    &&& v.galley == rec.galley
    &&& v.transport == rec.transport
    &&& v.losses == rec.losses
    &&& v.country == rec.country
    &&& v.country_name@ == display_name_spec(save.tag_names@, rec.country)
    &&& match rec.commander {
        Some(n) => {
            &&& v.commander matches Some(c) && c@ == n@
            &&& v.commander_stats == stats
        },
        None => v.commander is None && v.commander_stats is None,
    }
}

pub open spec fn battle_view_ok(
    save: SaveModel,
    bf: BattleFacts,
    astats: Option<CommanderStats>,
    dstats: Option<CommanderStats>,
    v: BattleView,
) -> bool {
    &&& v.name@ == bf.rec.name@
    &&& v.date == bf.date
    &&& v.location == bf.rec.location
    &&& v.attacker_won == bf.rec.attacker_won
    &&& v.winner_alliance == bf.rec.winner_alliance
    &&& v.loser_alliance == bf.rec.loser_alliance
    &&& side_view_ok(save, astats, bf.rec.attacker, v.attacker)
    &&& side_view_ok(save, dstats, bf.rec.defender, v.defender)
    &&& v.forces as int == side_forces(bf.rec.attacker) + side_forces(bf.rec.defender)
    &&& v.losses as int == bf.rec.attacker.losses + bf.rec.defender.losses
}

/// A participant's weight towards its side's total.
pub open spec fn part_weight(ever_atk: Seq<Tag>, attacker_side: bool) -> spec_fn(
    WarParticipantRecord,
) -> int {
    |p: WarParticipantRecord|
        if ever_atk.contains(p.tag) == attacker_side {
            p.participation as int
        } else {
            0int
        }
}

/// One participant view: the localized name, the exact decoded losses, the
/// share in basis points against the side total, and join/exit dates
/// clipped strictly inside the war interval.
pub open spec fn participant_view_ok(
    save: SaveModel,
    p: WarParticipantRecord,
    total: int,
    start: Option<Date>,
    end: Option<Date>,
    adds: Seq<(Date, Tag)>,
    removes: Seq<(Date, Tag)>,
    v: WarParticipantView,
) -> bool {
    &&& v.tag == p.tag
    &&& v.name@ == display_name_spec(save.tag_names@, p.tag)
    &&& v.participation == p.participation
    &&& v.participation_basis_points as int == basis_points(p.participation as int, total)
    &&& v.losses@.len() == LOSS_CATEGORIES
    &&& (forall|c: int| 0 <= c < LOSS_CATEGORIES ==> (#[trigger] v.losses@[c]) as int == decoded_at(
        p.raw_losses@,
        c,
    ))
    &&& v.joined == (match last_assoc(adds, p.tag) {
        Some(jd) => match start {
            Some(s) => if s.index_spec() < jd.index_spec() {
                Some(jd)
            } else {
                None::<Date>
            },
            None => None::<Date>,
        },
        None => None::<Date>,
    })
    &&& v.exited == (match last_assoc(removes, p.tag) {
        Some(ed) => match end {
            Some(e) => if ed.index_spec() < e.index_spec() {
                Some(ed)
            } else {
                None::<Date>
            },
            None => None::<Date>,
        },
        None => None::<Date>,
    })
}

/// What the deep-dive reconstruction of war `w` guarantees: one battle view
/// per Battle event in log order, each side's commander stats assigned by
/// the per-call memo (computed once per distinct commander name, at its
/// first battle, and reused afterwards), and every participant exactly once
/// across the two lists — on the attacker side precisely when an
/// AddAttacker event ever named its tag — with shares measured against its
/// own side's total.
pub open spec fn is_war_detail_of(
    save: SaveModel,
    ids: Seq<Identity>,
    w: WarRecord,
    d: WarDetail,
) -> bool {
    let evs = w.events@;
    let bf = battle_facts(ids, evs);
    let bs = battle_stats(save.countries@, bf).0;
    let ever = added_tags(war_walk(evs).added_attackers);
    let adds = adds_of(evs);
    let removes = removes_of(evs);
    let start = war_walk(evs).start;
    let end = war_walk(evs).end;
    let atk_ps = w.participants@.filter(|p: WarParticipantRecord| ever.contains(p.tag));
    let def_ps = w.participants@.filter(|p: WarParticipantRecord| !ever.contains(p.tag));
    let atk_total = seq_sum(w.participants@, part_weight(ever, true));
    let def_total = seq_sum(w.participants@, part_weight(ever, false));
    &&& d.battles@.len() == bf.len()
    &&& (forall|q: int| 0 <= q < bf.len() ==> battle_view_ok(
        save,
        bf[q],
        bs[q].0,
        bs[q].1,
        #[trigger] d.battles@[q],
    ))
    &&& d.attackers@.len() == atk_ps.len()
    &&& (forall|q: int| 0 <= q < atk_ps.len() ==> participant_view_ok(
        save,
        atk_ps[q],
        atk_total,
        start,
        end,
        adds,
        removes,
        #[trigger] d.attackers@[q],
    ))
    &&& d.defenders@.len() == def_ps.len()
    &&& (forall|q: int| 0 <= q < def_ps.len() ==> participant_view_ok(
        save,
        def_ps[q],
        def_total,
        start,
        end,
        adds,
        removes,
        #[trigger] d.defenders@[q],
    ))
}

fn last_assoc_exec(s: &Vec<(Date, Tag)>, t: Tag) -> (r: Option<Date>)
    requires
        forall|q: int| 0 <= q < s@.len() ==> (#[trigger] s@[q]).0.wf(),
    ensures
        r == last_assoc(s@, t),
        match r {
            Some(d) => d.wf(),
            None => true,
        },
{
    let ghost sv = s@;
    let mut k: usize = s.len();
    proof {
        assert(sv.take(sv.len() as int) == sv);
    }
    while k > 0
        invariant
            sv == s@,
            k <= sv.len(),
            forall|q: int| 0 <= q < sv.len() ==> (#[trigger] sv[q]).0.wf(),
            last_assoc(sv, t) == last_assoc(sv.take(k as int), t),
        decreases k,
    {
        proof {
            assert(sv.take(k as int).drop_last() == sv.take(k - 1));
            assert(sv.take(k as int).last() == sv[k - 1]);
        }
        if s[k - 1].1.code == t.code {
            return Some(s[k - 1].0);
        }
        k = k - 1;
    }
    None
}

/// The view of a call's memo vector.
pub open spec fn memo_view(m: Seq<(String, Option<CommanderStats>)>) -> Seq<MemoEntry> {
    Seq::new(m.len(), |i: int| MemoEntry { name: m[i].0@, stats: m[i].1 })
}

/// One memoized commander lookup: a cached name's first-computed stats, or
/// a fresh scan over this side's current members at this battle's date,
/// which is then cached.
fn lookup_or_compute(
    save: &SaveModel,
    memo: &mut Vec<(String, Option<CommanderStats>)>,
    members: &Vec<Tag>,
    date: Date,
    commander: &Option<String>,
) -> (r: Option<CommanderStats>)
    requires
        save.wf(),
        date.wf(),
    ensures
        ({
            let s = side_stats(save.countries@, memo_view(old(memo)@), members@, date, *commander);
            &&& r == s.0
            &&& memo_view(final(memo)@) == s.1
        }),
{
    match commander.as_ref() {
        None => None,
        Some(n) => {
            let ghost mv = memo_view(memo@);
            proof {
                assert(commander is Some);
                assert(commander->0 == *n);
                assert(mv.skip(0) == mv);
            }
            let mut i: usize = 0;
            while i < memo.len()
                invariant
                    commander is Some,
                    commander->0 == *n,
                    mv == memo_view(memo@),
                    i <= mv.len(),
                    memo_lookup(mv, n@) == memo_lookup(mv.skip(i as int), n@),
                decreases mv.len() - i,
            {
                proof {
                    assert(mv.skip(i as int)[0] == mv[i as int]);
                    assert(mv.skip(i as int).drop_first() == mv.skip(i + 1));
                }
                if memo[i].0 == *n {
                    proof {
                        assert(mv[i as int].name == n@);
                        assert(mv[i as int].stats == memo@[i as int].1);
                        assert(memo_lookup(mv.skip(i as int), n@) == Some(mv[i as int].stats));
                        assert(memo_lookup(mv, (*commander)->0@) == Some(mv[i as int].stats));
                        lemma_side_stats_cached(
                            save.countries@,
                            mv,
                            members@,
                            date,
                            *commander,
                            i as int,
                        );
                    }
                    return memo[i].1;
                }
                i = i + 1;
            }
            proof {
                assert(mv.skip(mv.len() as int).len() == 0);
            }
            let v = get_commander_stats(save, date, members, n);
            memo.push((n.clone(), v));
            proof {
                assert(memo_view(memo@) =~= mv.push(MemoEntry { name: n@, stats: v }));
            }
            v
        },
    }
}

/// Builds one battle side's view from its record and the stats the memo
/// assigned its commander.
fn build_side(save: &SaveModel, rec: &BattleSideRecord, stats: Option<CommanderStats>) -> (v:
    BattleSideView)
    ensures
        side_view_ok(*save, stats, *rec, v),
{
    let (commander, commander_stats): (Option<String>, Option<CommanderStats>) =
        match &rec.commander {
        Some(n) => (Some(n.clone()), stats),
        None => (None, None),
    };
    BattleSideView {
        infantry: rec.infantry,
        cavalry: rec.cavalry,
        artillery: rec.artillery,
        heavy_ship: rec.heavy_ship,
        light_ship: rec.light_ship,
        galley: rec.galley,
        transport: rec.transport,
        losses: rec.losses,
        country: rec.country,
        country_name: display_name(&save.tag_names, rec.country),
        commander,
        commander_stats,
    }
}

/// Reconstructs the deep-dive view of one war record.
#[verifier::rlimit(100)]
fn build_war_detail(save: &SaveModel, index: &IdentityIndex, w: &WarRecord) -> (d: WarDetail)
    requires
        save.wf(),
        index.wf(),
        index.corresponds(*save),
        w.wf(),
    ensures
        is_war_detail_of(*save, index.identities@, *w, d),
{
    let ghost ids = index.identities@;
    let ghost evs = w.events@;
    let mut cur_atk: Vec<Tag> = Vec::new();
    let mut cur_def: Vec<Tag> = Vec::new();
    let mut adds: Vec<(Date, Tag)> = Vec::new();
    let mut removes: Vec<(Date, Tag)> = Vec::new();
    let mut battles: Vec<BattleView> = Vec::new();
    let mut memo: Vec<(String, Option<CommanderStats>)> = Vec::new();
    let mut i: usize = 0;
    while i < w.events.len()
        invariant
            save.wf(),
            index.wf(),
            index.corresponds(*save),
            w.wf(),
            ids == index.identities@,
            evs == w.events@,
            i <= evs.len(),
            cur_atk@ == atk_members(ids, evs.take(i as int)),
            cur_def@ == def_members(ids, evs.take(i as int)),
            adds@ == adds_of(evs.take(i as int)),
            removes@ == removes_of(evs.take(i as int)),
            forall|z: int| 0 <= z < adds@.len() ==> (#[trigger] adds@[z]).0.wf(),
            forall|z: int| 0 <= z < removes@.len() ==> (#[trigger] removes@[z]).0.wf(),
            battles@.len() == battle_facts(ids, evs.take(i as int)).len(),
            memo_view(memo@) == battle_stats(
                save.countries@,
                battle_facts(ids, evs.take(i as int)),
            ).1,
            forall|q: int| 0 <= q < battles@.len() ==> battle_view_ok(
                *save,
                battle_facts(ids, evs.take(i as int))[q],
                battle_stats(save.countries@, battle_facts(ids, evs.take(i as int))).0[q].0,
                battle_stats(save.countries@, battle_facts(ids, evs.take(i as int))).0[q].1,
                #[trigger] battles@[q],
            ),
        decreases evs.len() - i,
    {
        proof {
            assert(evs.take(i + 1).drop_last() == evs.take(i as int));
            assert(evs.take(i + 1).last() == evs[i as int]);
        }
        let d = w.events[i].date;
        match &w.events[i].kind {
            WarEventKind::AddAttacker(t) => {
                let st = match index.resolve_detail(*t, d) {
                    Some(res) => res.stored,
                    None => *t,
                };
                if !find_tag(&cur_atk, st) {
                    cur_atk.push(st);
                }
                adds.push((d, *t));
            },
            WarEventKind::AddDefender(t) => {
                let st = match index.resolve_detail(*t, d) {
                    Some(res) => res.stored,
                    None => *t,
                };
                if !find_tag(&cur_def, st) {
                    cur_def.push(st);
                }
                adds.push((d, *t));
            },
            WarEventKind::RemoveAttacker(t) => {
                let st = match index.resolve_detail(*t, d) {
                    Some(res) => res.stored,
                    None => *t,
                };
                remove_tag_exec(&mut cur_atk, st);
                removes.push((d, *t));
            },
            WarEventKind::RemoveDefender(t) => {
                let st = match index.resolve_detail(*t, d) {
                    Some(res) => res.stored,
                    None => *t,
                };
                remove_tag_exec(&mut cur_def, st);
                removes.push((d, *t));
            },
            WarEventKind::Battle(b) => {
                let ghost bfs_old = battle_facts(ids, evs.take(i as int));
                let ghost old_battles = battles@;
                let astats = lookup_or_compute(save, &mut memo, &cur_atk, d, &b.attacker.commander);
                let dstats = lookup_or_compute(save, &mut memo, &cur_def, d, &b.defender.commander);
                let attacker = build_side(save, &b.attacker, astats);
                let defender = build_side(save, &b.defender, dstats);
                let forces: u64 = (b.attacker.infantry as u64) + (b.attacker.cavalry as u64) + (
                b.attacker.artillery as u64) + (b.attacker.heavy_ship as u64) + (
                b.attacker.light_ship as u64) + (b.attacker.galley as u64) + (
                b.attacker.transport as u64) + (b.defender.infantry as u64) + (
                b.defender.cavalry as u64) + (b.defender.artillery as u64) + (
                b.defender.heavy_ship as u64) + (b.defender.light_ship as u64) + (
                b.defender.galley as u64) + (b.defender.transport as u64);
                let losses: i64 = (b.attacker.losses as i64) + (b.defender.losses as i64);
                battles.push(
                    BattleView {
                        name: b.name.clone(),
                        date: d,
                        location: b.location,
                        attacker_won: b.attacker_won,
                        winner_alliance: b.winner_alliance,
                        loser_alliance: b.loser_alliance,
                        attacker,
                        defender,
                        forces,
                        losses,
                    },
                );
                proof {
                    let cs = save.countries@;
                    let bfs_new = battle_facts(ids, evs.take(i + 1));
                    let new_bf = BattleFacts {
                        date: evs[i as int].date,
                        rec: *b,
                        atk: atk_members(ids, evs.take(i as int)),
                        def: def_members(ids, evs.take(i as int)),
                    };
                    assert(bfs_new == bfs_old.push(new_bf));
                    assert(bfs_new.drop_last() == bfs_old);
                    assert(bfs_new.last() == new_bf);
                    let prev = battle_stats(cs, bfs_old);
                    let a = side_stats(cs, prev.1, new_bf.atk, new_bf.date, new_bf.rec.attacker.commander);
                    let dd = side_stats(cs, a.1, new_bf.def, new_bf.date, new_bf.rec.defender.commander);
                    assert(astats == a.0);
                    assert(dstats == dd.0);
                    assert(memo_view(memo@) == dd.1);
                    let bsn = battle_stats(cs, bfs_new).0;
                    assert(bsn == prev.0.push((a.0, dd.0)));
                    assert(battle_stats(cs, bfs_new).1 == dd.1);
                    lemma_battle_stats_len(cs, bfs_old);
                    assert(prev.0.len() == bfs_old.len());
                    assert(bsn.len() == battles@.len());
                    assert forall|q: int| 0 <= q < battles@.len() implies battle_view_ok(
                        *save,
                        bfs_new[q],
                        battle_stats(cs, bfs_new).0[q].0,
                        battle_stats(cs, bfs_new).0[q].1,
                        #[trigger] battles@[q],
                    ) by {
                        assert(battle_stats(cs, bfs_new).0 == bsn);
                        if q < battles@.len() - 1 {
                            assert(battles@[q] == old_battles[q]);
                            assert(bfs_new[q] == bfs_old[q]);
                            assert(bsn[q] == prev.0.push((a.0, dd.0))[q]);
                            assert(bsn[q] == prev.0[q]);
                            assert(battle_view_ok(
                                *save,
                                bfs_old[q],
                                prev.0[q].0,
                                prev.0[q].1,
                                old_battles[q],
                            ));
                        } else {
                            assert(battles@[q].attacker == attacker);
                            assert(battles@[q].defender == defender);
                            assert(bfs_new[q] == new_bf);
                            assert(bsn[q] == prev.0.push((a.0, dd.0))[q]);
                            assert(bsn[q] == (a.0, dd.0));
                            assert(side_view_ok(*save, a.0, new_bf.rec.attacker, attacker));
                            assert(side_view_ok(*save, dd.0, new_bf.rec.defender, defender));
                        }
                    }
                }
            },
        }
        i = i + 1;
    }
    proof {
        assert(evs.take(evs.len() as int) == evs);
    }
    let (_walk_atk, _walk_def, added_attackers, _added_defenders, _battles, wstart, wend) =
        walk_war(w);
    let ghost st = war_walk(evs);
    let ghost ever = added_tags(st.added_attackers);
    let mut ever_atk: Vec<Tag> = Vec::new();
    let mut ai: usize = 0;
    while ai < added_attackers.len()
        invariant
            added_attackers@ == st.added_attackers,
            ai <= added_attackers@.len(),
            ever_atk@.len() == ai,
            forall|q: int| 0 <= q < ai ==> ever_atk@[q] == (#[trigger] added_attackers@[q]).1,
        decreases added_attackers@.len() - ai,
    {
        ever_atk.push(added_attackers[ai].1);
        ai = ai + 1;
    }
    proof {
        assert(ever_atk@ =~= ever);
    }
    let ghost ps = w.participants@;
    let mut atk_total: u64 = 0;
    let mut def_total: u64 = 0;
    let mut q: usize = 0;
    proof {
        assert(ps.take(0int) == Seq::<WarParticipantRecord>::empty());
    }
    while q < w.participants.len()
        invariant
            w.wf(),
            ps == w.participants@,
            ever == ever_atk@,
            q <= ps.len(),
            ps.len() < 0x1_0000_0000,
            atk_total as int == seq_sum(ps.take(q as int), part_weight(ever, true)),
            def_total as int == seq_sum(ps.take(q as int), part_weight(ever, false)),
            atk_total <= (q as int) * 0xffff_ffff,
            def_total <= (q as int) * 0xffff_ffff,
        decreases ps.len() - q,
    {
        proof {
            assert(ps.take(q + 1).drop_last() == ps.take(q as int));
            assert(ps.take(q + 1).last() == ps[q as int]);
            assert((q as int) * 0xffff_ffff <= 0xffff_fffe * 0xffff_ffff) by (nonlinear_arith)
                requires 0 <= q <= 0xffff_fffe;
        }
        if find_tag(&ever_atk, w.participants[q].tag) {
            atk_total = atk_total + w.participants[q].participation as u64;
        } else {
            def_total = def_total + w.participants[q].participation as u64;
        }
        q = q + 1;
    }
    proof {
        assert(ps.take(ps.len() as int) == ps);
    }
    let ghost apred = |p: WarParticipantRecord| ever.contains(p.tag);
    let ghost dpred = |p: WarParticipantRecord| !ever.contains(p.tag);
    let mut atks: Vec<WarParticipantView> = Vec::new();
    let mut defs: Vec<WarParticipantView> = Vec::new();
    let mut pi: usize = 0;
    proof {
        assert(ps.take(0int) == Seq::<WarParticipantRecord>::empty());
        reveal_with_fuel(Seq::filter, 2);
    }
    while pi < w.participants.len()
        invariant
            save.wf(),
            w.wf(),
            ps == w.participants@,
            evs == w.events@,
            ever == ever_atk@,
            ever == added_tags(war_walk(evs).added_attackers),
            adds@ == adds_of(evs),
            removes@ == removes_of(evs),
            forall|z: int| 0 <= z < adds@.len() ==> (#[trigger] adds@[z]).0.wf(),
            forall|z: int| 0 <= z < removes@.len() ==> (#[trigger] removes@[z]).0.wf(),
            wstart == war_walk(evs).start,
            wend == war_walk(evs).end,
            match wstart {
                Some(sd) => sd.wf(),
                None => true,
            },
            match wend {
                Some(ed) => ed.wf(),
                None => true,
            },
            atk_total as int == seq_sum(ps, part_weight(ever, true)),
            def_total as int == seq_sum(ps, part_weight(ever, false)),
            apred == (|p: WarParticipantRecord| ever.contains(p.tag)),
            dpred == (|p: WarParticipantRecord| !ever.contains(p.tag)),
            pi <= ps.len(),
            atks@.len() == ps.take(pi as int).filter(apred).len(),
            defs@.len() == ps.take(pi as int).filter(dpred).len(),
            forall|z: int| 0 <= z < atks@.len() ==> participant_view_ok(
                *save,
                ps.take(pi as int).filter(apred)[z],
                atk_total as int,
                wstart,
                wend,
                adds@,
                removes@,
                #[trigger] atks@[z],
            ),
            forall|z: int| 0 <= z < defs@.len() ==> participant_view_ok(
                *save,
                ps.take(pi as int).filter(dpred)[z],
                def_total as int,
                wstart,
                wend,
                adds@,
                removes@,
                #[trigger] defs@[z],
            ),
        decreases ps.len() - pi,
    {
        proof {
            assert(ps.take(pi + 1).drop_last() == ps.take(pi as int));
            assert(ps.take(pi + 1).last() == ps[pi as int]);
            reveal_with_fuel(Seq::filter, 2);
        }
        let p = &w.participants[pi];
        let in_atk = find_tag(&ever_atk, p.tag);
        let total: u64 = if in_atk {
            atk_total
        } else {
            def_total
        };
        let bp: u64 = if total > 0 {
            (p.participation as u64) * 10000 / total
        } else {
            0
        };
        let joined: Option<Date> = match last_assoc_exec(&adds, p.tag) {
            Some(jd) => match &wstart {
                Some(sd) => if sd.lt(&jd) {
                    Some(jd)
                } else {
                    None
                },
                None => None,
            },
            None => None,
        };
        let exited: Option<Date> = match last_assoc_exec(&removes, p.tag) {
            Some(ed) => match &wend {
                Some(e) => if ed.lt(e) {
                    Some(ed)
                } else {
                    None
                },
                None => None,
            },
            None => None,
        };
        let v = WarParticipantView {
            tag: p.tag,
            name: display_name(&save.tag_names, p.tag),
            participation: p.participation,
            participation_basis_points: bp,
            losses: decode_losses(&p.raw_losses),
            joined,
            exited,
        };
        if in_atk {
            atks.push(v);
        } else {
            defs.push(v);
        }
        pi = pi + 1;
    }
    proof {
        assert(ps.take(ps.len() as int) == ps);
    }
    WarDetail { battles, attackers: atks, defenders: defs }
}

/// The deep-dive war query: finds the named war — among active wars first,
/// then previous wars — and reconstructs its battles and participants.
/// `None` exactly when no war carries the name.
pub fn get_war(save: &SaveModel, index: &IdentityIndex, name: &String) -> (r: Option<WarDetail>)
    requires
        save.wf(),
        index.wf(),
        index.corresponds(*save),
    ensures
        match r {
            None => !war_named(*save, name@),
            Some(d) => war_named(*save, name@) && is_war_detail_of(
                *save,
                index.identities@,
                first_war_named(*save, name@),
                d,
            ),
        },
{
    let ghost aw = save.active_wars@;
    let ghost pw = save.previous_wars@;
    proof {
        assert(aw.skip(0) == aw);
        lemma_find_war_in_range(aw, name@);
        lemma_find_war_in_range(pw, name@);
    }
    let mut i: usize = 0;
    while i < save.active_wars.len()
        invariant
            save.wf(),
            index.wf(),
            index.corresponds(*save),
            aw == save.active_wars@,
            i <= aw.len(),
            find_war_in(aw, name@) == match find_war_in(aw.skip(i as int), name@) {
                Some(k) => Some(k + i),
                None => None::<int>,
            },
        decreases aw.len() - i,
    {
        proof {
            assert(aw.skip(i as int)[0] == aw[i as int]);
            assert(aw.skip(i as int).drop_first() == aw.skip(i + 1));
        }
        if save.active_wars[i].name == *name {
            let d = build_war_detail(save, index, &save.active_wars[i]);
            return Some(d);
        }
        i = i + 1;
    }
    proof {
        assert(aw.skip(aw.len() as int).len() == 0);
        assert(pw.skip(0) == pw);
    }
    let mut j: usize = 0;
    while j < save.previous_wars.len()
        invariant
            save.wf(),
            index.wf(),
            index.corresponds(*save),
            pw == save.previous_wars@,
            find_war_in(save.active_wars@, name@) is None,
            j <= pw.len(),
            find_war_in(pw, name@) == match find_war_in(pw.skip(j as int), name@) {
                Some(k) => Some(k + j),
                None => None::<int>,
            },
        decreases pw.len() - j,
    {
        proof {
            assert(pw.skip(j as int)[0] == pw[j as int]);
            assert(pw.skip(j as int).drop_first() == pw.skip(j + 1));
        }
        if save.previous_wars[j].name == *name {
            let d = build_war_detail(save, index, &save.previous_wars[j]);
            return Some(d);
        }
        j = j + 1;
    }
    proof {
        assert(pw.skip(pw.len() as int).len() == 0);
    }
    None
}

} // verus!
