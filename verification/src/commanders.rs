//! Commander combat-stat identification: scans the owning country's history
//! in reverse-chronological order from a battle date for the most recent
//! leader appointment matching the commander's name, checking mercenary
//! company leaders first, and falls back to "unknown" (`None`) when no
//! appointment matches.

use crate::dates::Date;
use crate::model::{CountryEvent, CountryEventKind, CountryRecord, LeaderRecord, SaveModel};
use crate::tags::Tag;
use vstd::prelude::*;

verus! {

/// A commander's combat stats (fire, shock, maneuver, siege).
#[derive(Clone, Copy, PartialEq, Eq, Structural, Debug)]
pub struct CommanderStats {
    pub fire: u16,
    pub shock: u16,
    pub maneuver: u16,
    pub siege: u16,
}

pub open spec fn stats_of(l: LeaderRecord) -> CommanderStats {
    CommanderStats { fire: l.fire, shock: l.shock, maneuver: l.maneuver, siege: l.siege }
}

/// The leader stats a history event offers for the named commander: a
/// leader appointment with that name, or a ruler who doubles as a leader of
/// that name.
pub open spec fn event_leader_match(ev: CountryEvent, name: Seq<char>) -> Option<CommanderStats> {
    match ev.kind {
        CountryEventKind::Leader(l) => if l.name@ == name {
            Some(stats_of(l))
        } else {
            None::<CommanderStats>
        },
        CountryEventKind::Monarch(r) => match r.leader {
            Some(l) => if l.name@ == name {
                Some(stats_of(l))
            } else {
                None::<CommanderStats>
            },
            None => None::<CommanderStats>,
        },
        CountryEventKind::Heir(r) => match r.leader {
            Some(l) => if l.name@ == name {
                Some(stats_of(l))
            } else {
                None::<CommanderStats>
            },
            None => None::<CommanderStats>,
        },
        CountryEventKind::Queen(r) => match r.leader {
            Some(l) => if l.name@ == name {
                Some(stats_of(l))
            } else {
                None::<CommanderStats>
            },
            None => None::<CommanderStats>,
        },
        _ => None::<CommanderStats>,
    }
}

/// The most recent (last in log order) matching appointment.
pub open spec fn scan_all(evs: Seq<CountryEvent>, name: Seq<char>) -> Option<CommanderStats>
    decreases evs.len(),
{
    if evs.len() == 0 {
        None::<CommanderStats>
    } else {
        match event_leader_match(evs.last(), name) {
            Some(s) => Some(s),
            None => scan_all(evs.drop_last(), name),
        }
    }
}

/// The reverse-chronological scan from `date`: the newest entries dated
/// after `date` are skipped, then the most recent match among the rest is
/// taken.
pub open spec fn scan_from(evs: Seq<CountryEvent>, date: Date, name: Seq<char>) -> Option<
    CommanderStats,
>
    decreases evs.len(),
{
    if evs.len() == 0 {
        None::<CommanderStats>
    } else if evs.last().date.index_spec() > date.index_spec() {
        scan_from(evs.drop_last(), date, name)
    } else {
        scan_all(evs, name)
    }
}

/// The first mercenary company leader with the given name.
pub open spec fn find_merc(mercs: Seq<LeaderRecord>, name: Seq<char>) -> Option<CommanderStats>
    decreases mercs.len(),
{
    if mercs.len() == 0 {
        None::<CommanderStats>
    } else if mercs[0].name@ == name {
        Some(stats_of(mercs[0]))
    } else {
        find_merc(mercs.drop_first(), name)
    }
}

/// One country's answer: mercenary leaders first, then the history scan.
pub open spec fn country_stats(c: CountryRecord, date: Date, name: Seq<char>) -> Option<
    CommanderStats,
> {
    match find_merc(c.mercenary_leaders@, name) {
        Some(s) => Some(s),
        None => scan_from(c.history@, date, name),
    }
}

/// The first country stored under `t`.
pub open spec fn find_country(cs: Seq<CountryRecord>, t: Tag) -> Option<int>
    decreases cs.len(),
{
    if cs.len() == 0 {
        None::<int>
    } else if cs[0].stored_tag == t {
        Some(0int)
    } else {
        match find_country(cs.drop_first(), t) {
            Some(i) => Some(i + 1),
            None => None,
        }
    }
}

pub proof fn lemma_find_country_in_range(cs: Seq<CountryRecord>, t: Tag)
    ensures
        match find_country(cs, t) {
            Some(i) => 0 <= i < cs.len() && cs[i].stored_tag == t,
            None => true,
        },
    decreases cs.len(),
{
    if cs.len() > 0 && cs[0].stored_tag != t {
        lemma_find_country_in_range(cs.drop_first(), t);
    }
}

/// With distinct stored tags, the country holding a tag is the one lookup
/// finds.
pub proof fn lemma_find_country_unique(cs: Seq<CountryRecord>, t: Tag, k0: int)
    requires
        0 <= k0 < cs.len(),
        cs[k0].stored_tag == t,
        forall|i: int, j: int| 0 <= i < j < cs.len() ==> (#[trigger] cs[i]).stored_tag != (
        #[trigger] cs[j]).stored_tag,
    ensures
        find_country(cs, t) == Some(k0),
    decreases k0,
{
    if k0 == 0 {
    } else {
        assert(cs[0].stored_tag != t);
        assert(cs.drop_first()[k0 - 1] == cs[k0]);
        assert forall|i: int, j: int|
            0 <= i < j < cs.drop_first().len() implies (#[trigger] cs.drop_first()[i]).stored_tag
            != (#[trigger] cs.drop_first()[j]).stored_tag by {
            assert(cs.drop_first()[i] == cs[i + 1]);
            assert(cs.drop_first()[j] == cs[j + 1]);
        }
        lemma_find_country_unique(cs.drop_first(), t, k0 - 1);
    }
}

/// Scanning the given countries in order: the first one that knows the
/// commander decides; tags naming no stored country are passed over.
pub open spec fn commander_stats_spec(
    cs: Seq<CountryRecord>,
    tags: Seq<Tag>,
    date: Date,
    name: Seq<char>,
) -> Option<CommanderStats>
    decreases tags.len(),
{
    if tags.len() == 0 {
        None::<CommanderStats>
    } else {
        let rest = commander_stats_spec(cs, tags.drop_first(), date, name);
        match find_country(cs, tags[0]) {
            Some(i) => if 0 <= i < cs.len() {
                match country_stats(cs[i], date, name) {
                    Some(s) => Some(s),
                    None => rest,
                }
            } else {
                rest
            },
            None => rest,
        }
    }
}

fn check_event(ev: &CountryEvent, name: &String) -> (r: Option<CommanderStats>)
    ensures
        r == event_leader_match(*ev, name@),
{
    match &ev.kind {
        CountryEventKind::Leader(l) => {
            if l.name == *name {
                Some(CommanderStats { fire: l.fire, shock: l.shock, maneuver: l.maneuver, siege: l.siege })
            } else {
                None
            }
        },
        CountryEventKind::Monarch(r) => match &r.leader {
            Some(l) => if l.name == *name {
                Some(CommanderStats { fire: l.fire, shock: l.shock, maneuver: l.maneuver, siege: l.siege })
            } else {
                None
            },
            None => None,
        },
        CountryEventKind::Heir(r) => match &r.leader {
            Some(l) => if l.name == *name {
                Some(CommanderStats { fire: l.fire, shock: l.shock, maneuver: l.maneuver, siege: l.siege })
            } else {
                None
            },
            None => None,
        },
        CountryEventKind::Queen(r) => match &r.leader {
            Some(l) => if l.name == *name {
                Some(CommanderStats { fire: l.fire, shock: l.shock, maneuver: l.maneuver, siege: l.siege })
            } else {
                None
            },
            None => None,
        },
        _ => None,
    }
}

fn country_stats_exec(c: &CountryRecord, date: Date, name: &String) -> (r: Option<CommanderStats>)
    requires
        c.wf(),
        date.wf(),
    ensures
        r == country_stats(*c, date, name@),
{
    let ghost mercs = c.mercenary_leaders@;
    proof {
        assert(mercs.skip(0) == mercs);
    }
    let mut m: usize = 0;
    while m < c.mercenary_leaders.len()
        invariant
            mercs == c.mercenary_leaders@,
            m <= mercs.len(),
            find_merc(mercs, name@) == find_merc(mercs.skip(m as int), name@),
        decreases mercs.len() - m,
    {
        proof {
            assert(mercs.skip(m as int)[0] == mercs[m as int]);
            assert(mercs.skip(m as int).drop_first() == mercs.skip(m + 1));
        }
        let l = &c.mercenary_leaders[m];
        if l.name == *name {
            return Some(
                CommanderStats { fire: l.fire, shock: l.shock, maneuver: l.maneuver, siege: l.siege },
            );
        }
        m = m + 1;
    }
    proof {
        assert(mercs.skip(mercs.len() as int).len() == 0);
    }
    let ghost h = c.history@;
    let mut k: usize = c.history.len();
    proof {
        assert(h.take(h.len() as int) == h);
    }
    while k > 0 && c.history[k - 1].date.day_index() > date.day_index()
        invariant
            c.wf(),
            date.wf(),
            h == c.history@,
            k <= h.len(),
            find_merc(c.mercenary_leaders@, name@) is None,
            scan_from(h, date, name@) == scan_from(h.take(k as int), date, name@),
        decreases k,
    {
        proof {
            assert(h.take(k as int).drop_last() == h.take(k - 1));
            assert(h.take(k as int).last() == h[k - 1]);
        }
        k = k - 1;
    }
    proof {
        if k > 0 {
            assert(h.take(k as int).last() == h[k - 1]);
        }
        assert(scan_from(h, date, name@) == scan_all(h.take(k as int), name@));
    }
    while k > 0
        invariant
            c.wf(),
            h == c.history@,
            k <= h.len(),
            find_merc(c.mercenary_leaders@, name@) is None,
            scan_from(h, date, name@) == scan_all(h.take(k as int), name@),
        decreases k,
    {
        proof {
            assert(h.take(k as int).drop_last() == h.take(k - 1));
            assert(h.take(k as int).last() == h[k - 1]);
        }
        match check_event(&c.history[k - 1], name) {
            Some(s) => {
                return Some(s);
            },
            None => {},
        }
        k = k - 1;
    }
    None
}

/// Finds the named commander's combat stats by scanning the given
/// countries' histories in reverse-chronological order from `date`,
/// mercenary company leaders first. `None` is the explicit "unknown stats"
/// fallback.
pub fn get_commander_stats(save: &SaveModel, date: Date, tags: &Vec<Tag>, commander: &String) -> (r:
    Option<CommanderStats>)
    requires
        save.wf(),
        date.wf(),
    ensures
        r == commander_stats_spec(save.countries@, tags@, date, commander@),
{
    let ghost cs = save.countries@;
    let ghost tv = tags@;
    proof {
        assert(tv.skip(0) == tv);
    }
    let mut i: usize = 0;
    while i < tags.len()
        invariant
            save.wf(),
            date.wf(),
            cs == save.countries@,
            tv == tags@,
            i <= tv.len(),
            commander_stats_spec(cs, tv, date, commander@) == commander_stats_spec(
                cs,
                tv.skip(i as int),
                date,
                commander@,
            ),
        decreases tv.len() - i,
    {
        proof {
            assert(tv.skip(i as int)[0] == tv[i as int]);
            assert(tv.skip(i as int).drop_first() == tv.skip(i + 1));
            lemma_find_country_in_range(cs, tv[i as int]);
        }
        let mut ci: usize = 0;
        let mut found: Option<usize> = None;
        proof {
            assert(cs.skip(0) == cs);
        }
        while ci < save.countries.len() && found.is_none()
            invariant
                cs == save.countries@,
                ci <= cs.len(),
                match found {
                    Some(f) => find_country(cs, tv[i as int]) == Some(f as int),
                    None => find_country(cs, tv[i as int]) == match find_country(
                        cs.skip(ci as int),
                        tv[i as int],
                    ) {
                        Some(q) => Some(q + ci),
                        None => None::<int>,
                    },
                },
                0 <= i < tv.len(),
                tv == tags@,
            decreases cs.len() - ci + (if found is None {
                1int
            } else {
                0int
            }),
        {
            proof {
                assert(cs.skip(ci as int)[0] == cs[ci as int]);
                assert(cs.skip(ci as int).drop_first() == cs.skip(ci + 1));
            }
            if save.countries[ci].stored_tag.code == tags[i].code {
                found = Some(ci);
            } else {
                ci = ci + 1;
            }
        }
        proof {
            if found is None {
                assert(cs.skip(cs.len() as int).len() == 0);
            }
        }
        match found {
            Some(f) => {
                match country_stats_exec(&save.countries[f], date, commander) {
                    Some(s) => {
                        return Some(s);
                    },
                    None => {},
                }
            },
            None => {},
        }
        i = i + 1;
    }
    proof {
        assert(tv.skip(tv.len() as int).len() == 0);
    }
    None
}

} // verus!
