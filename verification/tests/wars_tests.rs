use eu4views::dates::Date;
use eu4views::identity::IdentityIndex;
use eu4views::ledger::{AiTagsState, TagFilterPayload};
use eu4views::model::{
    BattleRecord, BattleSideRecord, CountryLedger, CountryRecord, SaveModel, WarEvent,
    WarEventKind, WarParticipantRecord, WarRecord,
};
use eu4views::tags::Tag;
use eu4views::wars::{countries_war_losses, wars};

fn tag(s: &[u8; 3]) -> Tag {
    Tag::from_ascii(s[0], s[1], s[2], 0)
}

fn country(stored: Tag) -> CountryRecord {
    CountryRecord {
        stored_tag: stored,
        human: false,
        is_great_power: false,
        num_of_cities: 1,
        history: Vec::new(),
        mercenary_leaders: Vec::new(),
        raw_losses: Vec::new(),
        ledger: CountryLedger {
            income: Vec::new(),
            inflation: Vec::new(),
            score: Vec::new(),
            nation_size: Vec::new(),
        },
    }
}

fn side(country: Tag) -> BattleSideRecord {
    BattleSideRecord {
        infantry: 1000,
        cavalry: 0,
        artillery: 0,
        heavy_ship: 0,
        light_ship: 0,
        galley: 0,
        transport: 0,
        losses: 100,
        country,
        commander: None,
    }
}

fn war(name: &str, attacker: Tag, defender: Tag, events: Vec<WarEvent>) -> WarRecord {
    WarRecord {
        name: String::from(name),
        original_attacker: attacker,
        original_defender: defender,
        events,
        participants: vec![
            WarParticipantRecord { tag: attacker, participation: 10, raw_losses: vec![7, -1] },
            WarParticipantRecord { tag: defender, participation: 5, raw_losses: vec![3] },
        ],
    }
}

fn save(previous: Vec<WarRecord>, active: Vec<WarRecord>) -> SaveModel {
    SaveModel {
        start_date: Date::new(1444, 11, 11),
        save_date: Date::new(1700, 1, 1),
        players: Vec::new(),
        tag_names: Vec::new(),
        countries: vec![country(tag(b"SWE")), country(tag(b"DAN"))],
        provinces: Vec::new(),
        active_wars: active,
        previous_wars: previous,
    }
}

fn add_events(attacker: Tag, defender: Tag) -> Vec<WarEvent> {
    vec![
        WarEvent { date: Date::new(1500, 1, 1), kind: WarEventKind::AddAttacker(attacker) },
        WarEvent { date: Date::new(1500, 1, 1), kind: WarEventKind::AddDefender(defender) },
        WarEvent {
            date: Date::new(1501, 6, 1),
            kind: WarEventKind::Battle(BattleRecord {
                name: String::from("Lund"),
                location: 6,
                attacker_won: true,
                attacker: side(attacker),
                defender: side(defender),
                winner_alliance: 20,
                loser_alliance: 10,
            }),
        },
        WarEvent { date: Date::new(1502, 3, 1), kind: WarEventKind::RemoveDefender(defender) },
    ]
}

#[test]
fn country_level_losses_are_decoded_per_filtered_tag() {
    let mut s = save(Vec::new(), Vec::new());
    s.countries[0].raw_losses = vec![2, -1];
    let r = countries_war_losses(&s, &TagFilterPayload { ai: AiTagsState::All });
    assert_eq!(r.len(), 2);
    assert_eq!(r[0].tag, tag(b"SWE"));
    assert_eq!(r[0].losses[0], 2);
    assert_eq!(r[0].losses[1], (2 * 2147483 - 1) as u32);
    assert_eq!(r[1].tag, tag(b"DAN"));
    assert_eq!(r[1].losses[0], 0);
}

#[test]
fn empty_named_war_is_never_emitted() {
    let swe = tag(b"SWE");
    let dan = tag(b"DAN");
    let bad = war("", swe, dan, add_events(swe, dan));
    let s = save(vec![bad], Vec::new());
    let index = IdentityIndex::build(&s);
    let result = wars(&s, &index, &TagFilterPayload { ai: AiTagsState::All });
    assert!(result.is_empty());
}

#[test]
fn sentinel_attacker_war_is_never_emitted() {
    let swe = tag(b"SWE");
    let dan = tag(b"DAN");
    let bad = war("Ghost War", Tag::no_entity(), dan, add_events(swe, dan));
    let s = save(vec![bad], Vec::new());
    let index = IdentityIndex::build(&s);
    let result = wars(&s, &index, &TagFilterPayload { ai: AiTagsState::All });
    assert!(result.is_empty());
}

#[test]
fn pre_campaign_war_is_dropped() {
    let swe = tag(b"SWE");
    let dan = tag(b"DAN");
    let mut events = add_events(swe, dan);
    events.push(WarEvent {
        date: Date::new(1400, 1, 1),
        kind: WarEventKind::AddAttacker(swe),
    });
    let synthetic = war("Ancient War", swe, dan, events);
    let s = save(vec![synthetic], Vec::new());
    let index = IdentityIndex::build(&s);
    let result = wars(&s, &index, &TagFilterPayload { ai: AiTagsState::All });
    assert!(result.is_empty());
}

#[test]
fn previous_war_is_reconstructed() {
    let swe = tag(b"SWE");
    let dan = tag(b"DAN");
    let w = war("Northern War", swe, dan, add_events(swe, dan));
    let s = save(vec![w], Vec::new());
    let index = IdentityIndex::build(&s);
    let result = wars(&s, &index, &TagFilterPayload { ai: AiTagsState::All });
    assert_eq!(result.len(), 1);
    let o = &result[0];
    assert_eq!(o.name, "Northern War");
    assert_eq!(o.battles, 1);
    assert_eq!(o.start_date, Date::new(1500, 1, 1));
    assert_eq!(o.end_date, Some(Date::new(1502, 3, 1)));
    assert_eq!(o.days, Date::new(1500, 1, 1).days_until(&Date::new(1502, 3, 1)));
    // the attacker never left; the defender was removed
    assert_eq!(o.attackers.members, vec![swe]);
    assert!(o.defenders.members.is_empty());
    assert_eq!(o.attackers.original, swe);
    assert_eq!(o.defenders.original, dan);
    // losses are decoded and bucketed by the side a participant last
    // belonged to: the defender left the member list, but its losses still
    // count in the defender total
    assert_eq!(o.attackers.losses[0], 7);
    assert_eq!(o.attackers.losses[1], (2 * 2147483 - 1) as u64);
    assert_eq!(o.defenders.losses[0], 3);
}

#[test]
fn active_war_has_no_end_date() {
    let swe = tag(b"SWE");
    let dan = tag(b"DAN");
    let mut events = add_events(swe, dan);
    events.pop();
    events.push(WarEvent {
        date: Date::new(1501, 7, 1),
        kind: WarEventKind::AddDefender(dan),
    });
    let w = war("Ongoing War", swe, dan, events);
    let s = save(Vec::new(), vec![w]);
    let index = IdentityIndex::build(&s);
    let result = wars(&s, &index, &TagFilterPayload { ai: AiTagsState::All });
    assert_eq!(result.len(), 1);
    let o = &result[0];
    assert_eq!(o.end_date, None);
    assert_eq!(o.days, Date::new(1500, 1, 1).days_until(&Date::new(1700, 1, 1)));
    // re-adding an active participant must not double-count: defender stays
    assert_eq!(o.defenders.members, vec![dan]);
}
