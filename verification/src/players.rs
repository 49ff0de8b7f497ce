//! Player and country listings derived from the save model and the
//! identity index.

use crate::dates::Date;
use crate::identity::{Identity, IdentityIndex, NationEvent, NationEventKind};
use crate::ledger::{display_name, display_name_spec};
use crate::model::{PlayerRecord, SaveModel};
use crate::tags::Tag;
use vstd::prelude::*;

verus! {

/// The tags of countries that still own at least one city, in save order.
pub open spec fn alive_seq(save: SaveModel) -> Seq<Tag> {
    save.countries@.filter(|c: crate::model::CountryRecord| c.num_of_cities > 0).map_values(
        |c: crate::model::CountryRecord| c.stored_tag,
    )
}

/// Lists the stored tags of all alive countries.
pub fn get_alive_countries(save: &SaveModel) -> (r: Vec<Tag>)
    ensures
        r@ == alive_seq(*save),
{
    let ghost pred = |c: crate::model::CountryRecord| c.num_of_cities > 0;
    let mut r: Vec<Tag> = Vec::new();
    let mut i: usize = 0;
    proof {
        assert(save.countries@.take(0int) == Seq::<crate::model::CountryRecord>::empty());
        reveal_with_fuel(Seq::filter, 2);
    }
    while i < save.countries.len()
        invariant
            i <= save.countries@.len(),
            r@ == save.countries@.take(i as int).filter(pred).map_values(
                |c: crate::model::CountryRecord| c.stored_tag,
            ),
            pred == (|c: crate::model::CountryRecord| c.num_of_cities > 0),
        decreases save.countries@.len() - i,
    {
        proof {
            assert(save.countries@.take(i + 1).drop_last() == save.countries@.take(i as int));
            assert(save.countries@.take(i + 1).last() == save.countries@[i as int]);
            reveal_with_fuel(Seq::filter, 2);
        }
        if save.countries[i].num_of_cities > 0 {
            r.push(save.countries[i].stored_tag);
        }
        i = i + 1;
    }
    proof {
        assert(save.countries@.take(save.countries@.len() as int) == save.countries@);
    }
    r
}

/// One tag-assignment step of a player country's history: the date, the
/// adopted tag, and its localized display name.
pub struct TagTransition {
    pub name: String,
    pub tag: Tag,
    pub date: Date,
}

/// A player's country history view: its identity's latest tag, annexation
/// date if its record ends annexed, its tag transitions (campaign start
/// with the initial tag, then one entry per tag switch), and the names of
/// every player on that tag.
pub struct PlayerStanding {
    pub name: String,
    pub latest: Tag,
    pub annexed: Option<Date>,
    pub is_human: bool,
    pub transitions: Vec<TagTransition>,
    pub player_names: Vec<String>,
}

/// The dated tag assignments of an identity's timeline: its initial tag at
/// the campaign start and each tag switch, in order.
pub open spec fn transition_events(evs: Seq<NationEvent>) -> Seq<(Date, Tag)>
    decreases evs.len(),
{
    if evs.len() == 0 {
        Seq::<(Date, Tag)>::empty()
    } else {
        let rest = transition_events(evs.drop_last());
        match evs.last().kind {
            NationEventKind::Initial(t) => rest.push((evs.last().date, t)),
            NationEventKind::TagSwitch(t) => rest.push((evs.last().date, t)),
            NationEventKind::Annexed => rest,
        }
    }
}

/// The transition list matches an identity's timeline, each entry carrying
/// its localized display name.
pub open spec fn transitions_ok(save: SaveModel, id: Identity, ts: Seq<TagTransition>) -> bool {
    let te = transition_events(id.events@);
    &&& ts.len() == te.len()
    &&& forall|q: int|
        0 <= q < te.len() ==> {
            &&& (#[trigger] ts[q]).date == te[q].0
            &&& ts[q].tag == te[q].1
            &&& ts[q].name@ == display_name_spec(save.tag_names@, te[q].1)
        }
}

/// The names of every player controlling this tag, in save order.
pub open spec fn players_named(players: Seq<PlayerRecord>, t: Tag) -> Seq<PlayerRecord> {
    players.filter(|pp: PlayerRecord| pp.tag == t)
}

pub open spec fn player_names_ok(save: SaveModel, t: Tag, names: Seq<String>) -> bool {
    let sharing = players_named(save.players@, t);
    &&& names.len() == sharing.len()
    &&& forall|q: int| 0 <= q < sharing.len() ==> (#[trigger] names[q])@ == sharing[q].name@
}

/// Builds an identity's transition list with localized names.
fn build_transitions(save: &SaveModel, id: &Identity) -> (r: Vec<TagTransition>)
    ensures
        transitions_ok(*save, *id, r@),
{
    let ghost evs = id.events@;
    let mut r: Vec<TagTransition> = Vec::new();
    let mut i: usize = 0;
    while i < id.events.len()
        invariant
            evs == id.events@,
            i <= evs.len(),
            r@.len() == transition_events(evs.take(i as int)).len(),
            forall|q: int|
                0 <= q < r@.len() ==> {
                    &&& (#[trigger] r@[q]).date == transition_events(evs.take(i as int))[q].0
                    &&& r@[q].tag == transition_events(evs.take(i as int))[q].1
                    &&& r@[q].name@ == display_name_spec(
                        save.tag_names@,
                        transition_events(evs.take(i as int))[q].1,
                    )
                },
        decreases evs.len() - i,
    {
        proof {
            assert(evs.take(i + 1).drop_last() == evs.take(i as int));
            assert(evs.take(i + 1).last() == evs[i as int]);
        }
        match &id.events[i].kind {
            NationEventKind::Initial(t) => {
                r.push(
                    TagTransition {
                        name: display_name(&save.tag_names, *t),
                        tag: *t,
                        date: id.events[i].date,
                    },
                );
            },
            NationEventKind::TagSwitch(t) => {
                r.push(
                    TagTransition {
                        name: display_name(&save.tag_names, *t),
                        tag: *t,
                        date: id.events[i].date,
                    },
                );
            },
            NationEventKind::Annexed => {},
        }
        i = i + 1;
    }
    proof {
        assert(evs.take(evs.len() as int) == evs);
    }
    r
}

/// Collects the names of every player controlling a tag.
fn build_player_names(save: &SaveModel, t: Tag) -> (r: Vec<String>)
    ensures
        player_names_ok(*save, t, r@),
{
    let ghost pv = save.players@;
    let ghost pred = |pp: PlayerRecord| pp.tag == t;
    let mut r: Vec<String> = Vec::new();
    let mut i: usize = 0;
    proof {
        assert(pv.take(0int) == Seq::<PlayerRecord>::empty());
        reveal_with_fuel(Seq::filter, 2);
    }
    while i < save.players.len()
        invariant
            pv == save.players@,
            pred == (|pp: PlayerRecord| pp.tag == t),
            i <= pv.len(),
            r@.len() == pv.take(i as int).filter(pred).len(),
            forall|q: int| 0 <= q < r@.len() ==> (#[trigger] r@[q])@ == pv.take(i as int).filter(
                pred,
            )[q].name@,
        decreases pv.len() - i,
    {
        proof {
            assert(pv.take(i + 1).drop_last() == pv.take(i as int));
            assert(pv.take(i + 1).last() == pv[i as int]);
            reveal_with_fuel(Seq::filter, 2);
        }
        if save.players[i].tag.code == t.code {
            r.push(save.players[i].name.clone());
        }
        i = i + 1;
    }
    proof {
        assert(pv.take(pv.len() as int) == pv);
    }
    r
}

/// The annexation date an identity's timeline ends with, if any.
pub open spec fn annexed_at(id: Identity) -> Option<Date> {
    if id.events@.len() > 0 && id.events@.last().kind is Annexed {
        Some(id.events@.last().date)
    } else {
        None::<Date>
    }
}

/// One player's standing, derived from the identity its tag is stored
/// under: the identity's latest tag, its annexation date if its record ends
/// annexed, and whether the country is currently human-controlled.
pub open spec fn is_standing_of(save: SaveModel, ids: Seq<Identity>, p: PlayerRecord, s: PlayerStanding) -> bool {
    &&& s.name@ == p.name@
    &&& player_names_ok(save, p.tag, s.player_names@)
    &&& match crate::identity::find_stored_spec(ids, p.tag) {
        Some(i) => {
            &&& 0 <= i < ids.len()
            &&& s.latest == ids[i].latest
            &&& s.annexed == annexed_at(ids[i])
            &&& (0 <= i < save.countries@.len() ==> s.is_human == save.countries@[i].human)
            &&& transitions_ok(save, ids[i], s.transitions@)
        },
        None => {
            &&& s.latest == p.tag
            &&& s.annexed is None
            &&& s.is_human == false
            &&& s.transitions@.len() == 0
        },
    }
}

/// Derives each player's standing from the identity index: the latest tag
/// of the identity they play, its annexation date when its record ends
/// annexed, whether it is still human-controlled, its tag transitions
/// (campaign start, then each switch) with localized names, and the names
/// of every player on the tag. Players whose tag names no stored identity
/// fall back to their raw tag.
pub fn get_player_standings(save: &SaveModel, index: &IdentityIndex) -> (r: Vec<PlayerStanding>)
    requires
        index.corresponds(*save),
    ensures
        r@.len() == save.players@.len(),
        forall|i: int| 0 <= i < r@.len() ==> is_standing_of(
            *save,
            index.identities@,
            save.players@[i],
            #[trigger] r@[i],
        ),
{
    let ghost ids = index.identities@;
    let mut r: Vec<PlayerStanding> = Vec::new();
    let mut i: usize = 0;
    while i < save.players.len()
        invariant
            index.corresponds(*save),
            ids == index.identities@,
            i <= save.players@.len(),
            r@.len() == i,
            forall|q: int| 0 <= q < i ==> is_standing_of(
                *save,
                ids,
                save.players@[q],
                #[trigger] r@[q],
            ),
        decreases save.players@.len() - i,
    {
        let p = &save.players[i];
        let standing = match index.find_stored(p.tag) {
            Some(ii) => {
                proof {
                    crate::identity::lemma_find_stored_in_range(ids, p.tag);
                }
                let id = &index.identities[ii];
                let annexed: Option<Date> = if id.events.len() > 0 {
                    match &id.events[id.events.len() - 1].kind {
                        NationEventKind::Annexed => Some(id.events[id.events.len() - 1].date),
                        _ => None,
                    }
                } else {
                    None
                };
                proof {
                    assert(id.events@.last() == id.events@[id.events@.len() - 1]);
                }
                PlayerStanding {
                    name: p.name.clone(),
                    latest: id.latest,
                    annexed,
                    is_human: save.countries[ii].human,
                    transitions: build_transitions(save, id),
                    player_names: build_player_names(save, p.tag),
                }
            },
            None => PlayerStanding {
                name: p.name.clone(),
                latest: p.tag,
                annexed: None,
                is_human: false,
                transitions: Vec::new(),
                player_names: build_player_names(save, p.tag),
            },
        };
        r.push(standing);
        i = i + 1;
    }
    r
}

} // verus!
