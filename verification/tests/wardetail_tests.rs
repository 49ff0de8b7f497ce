use eu4views::commanders::CommanderStats;
use eu4views::dates::Date;
use eu4views::identity::IdentityIndex;
use eu4views::model::{
    BattleRecord, BattleSideRecord, CountryEvent, CountryEventKind, CountryLedger, CountryRecord,
    LeaderRecord, SaveModel, TagName, WarEvent, WarEventKind, WarParticipantRecord, WarRecord,
};
use eu4views::tags::Tag;
use eu4views::wardetail::get_war;

fn tag(s: &[u8; 3]) -> Tag {
    Tag::from_ascii(s[0], s[1], s[2], 0)
}

fn country(stored: Tag, history: Vec<CountryEvent>) -> CountryRecord {
    CountryRecord {
        stored_tag: stored,
        human: false,
        is_great_power: false,
        num_of_cities: 1,
        history,
        mercenary_leaders: Vec::new(),
        raw_losses: Vec::new(),
        ledger: CountryLedger {
            income: Vec::new(),
            inflation: Vec::new(),
            score: Vec::new(),
            nation_size: Vec::new(),
        },
    }
}

fn side(country: Tag, commander: Option<&str>) -> BattleSideRecord {
    BattleSideRecord {
        infantry: 1000,
        cavalry: 200,
        artillery: 50,
        heavy_ship: 0,
        light_ship: 0,
        galley: 0,
        transport: 0,
        losses: 300,
        country,
        commander: commander.map(String::from),
    }
}

#[test]
fn deep_dive_reconstructs_battles_and_participants() {
    let swe = tag(b"SWE");
    let dan = tag(b"DAN");
    let leader = LeaderRecord {
        name: String::from("Baner"),
        fire: 4,
        shock: 3,
        maneuver: 2,
        siege: 1,
    };
    let sweden = country(
        swe,
        vec![CountryEvent {
            date: Date::new(1490, 1, 1),
            kind: CountryEventKind::Leader(leader),
        }],
    );
    let denmark = country(dan, Vec::new());
    let war = WarRecord {
        name: String::from("Northern War"),
        original_attacker: swe,
        original_defender: dan,
        events: vec![
            WarEvent { date: Date::new(1500, 1, 1), kind: WarEventKind::AddAttacker(swe) },
            WarEvent { date: Date::new(1500, 2, 1), kind: WarEventKind::AddDefender(dan) },
            WarEvent {
                date: Date::new(1501, 6, 1),
                kind: WarEventKind::Battle(BattleRecord {
                    name: String::from("Lund"),
                    location: 6,
                    attacker_won: true,
                    attacker: side(swe, Some("Baner")),
                    defender: side(dan, None),
                    winner_alliance: 20,
                    loser_alliance: 10,
                }),
            },
            WarEvent { date: Date::new(1502, 3, 1), kind: WarEventKind::RemoveDefender(dan) },
            WarEvent { date: Date::new(1503, 1, 1), kind: WarEventKind::RemoveAttacker(tag(b"FRA")) },
        ],
        participants: vec![
            WarParticipantRecord { tag: swe, participation: 30, raw_losses: vec![9] },
            WarParticipantRecord { tag: dan, participation: 10, raw_losses: vec![4] },
        ],
    };
    let save = SaveModel {
        start_date: Date::new(1444, 11, 11),
        save_date: Date::new(1700, 1, 1),
        players: Vec::new(),
        tag_names: vec![TagName { tag: swe, name: String::from("Sweden") }],
        countries: vec![sweden, denmark],
        provinces: Vec::new(),
        active_wars: Vec::new(),
        previous_wars: vec![war],
    };
    let index = IdentityIndex::build(&save);

    // an unknown name yields nothing
    assert!(get_war(&save, &index, &String::from("No Such War")).is_none());

    let d = get_war(&save, &index, &String::from("Northern War")).unwrap();
    assert_eq!(d.battles.len(), 1);
    let b = &d.battles[0];
    assert_eq!(b.name, "Lund");
    assert_eq!(b.date, Date::new(1501, 6, 1));
    assert_eq!(b.location, 6);
    assert!(b.attacker_won);
    assert_eq!(b.forces, 2 * (1000 + 200 + 50));
    assert_eq!(b.losses, 600);
    assert_eq!(b.attacker.country, swe);
    assert_eq!(b.attacker.country_name, "Sweden");
    assert_eq!(b.attacker.commander.as_deref(), Some("Baner"));
    assert_eq!(
        b.attacker.commander_stats,
        Some(CommanderStats { fire: 4, shock: 3, maneuver: 2, siege: 1 })
    );
    assert!(b.defender.commander.is_none());
    assert!(b.defender.commander_stats.is_none());

    // each participant sits on exactly one side, with its share of that
    // side's weight in basis points
    assert_eq!(d.attackers.len(), 1);
    assert_eq!(d.defenders.len(), 1);
    let atk = &d.attackers[0];
    assert_eq!(atk.tag, swe);
    assert_eq!(atk.participation, 30);
    assert_eq!(atk.participation_basis_points, 10000);
    assert_eq!(atk.losses[0], 9);
    // joined at the war's computed start date: no clipped join reported
    assert!(atk.joined.is_none());
    assert!(atk.exited.is_none());
    let def = &d.defenders[0];
    assert_eq!(def.tag, dan);
    assert_eq!(def.participation_basis_points, 10000);
    // joined strictly after the start and left strictly before the end
    assert_eq!(def.joined, Some(Date::new(1500, 2, 1)));
    assert_eq!(def.exited, Some(Date::new(1502, 3, 1)));
}

#[test]
fn commander_stats_are_memoized_per_name_within_one_call() {
    let swe = tag(b"SWE");
    let dan = tag(b"DAN");
    // the commander is re-appointed with better stats between two battles
    let sweden = country(
        swe,
        vec![
            CountryEvent {
                date: Date::new(1490, 1, 1),
                kind: CountryEventKind::Leader(LeaderRecord {
                    name: String::from("Baner"),
                    fire: 4,
                    shock: 3,
                    maneuver: 2,
                    siege: 1,
                }),
            },
            CountryEvent {
                date: Date::new(1503, 1, 1),
                kind: CountryEventKind::Leader(LeaderRecord {
                    name: String::from("Baner"),
                    fire: 6,
                    shock: 6,
                    maneuver: 6,
                    siege: 6,
                }),
            },
        ],
    );
    let battle = |year: u16| WarEvent {
        date: Date::new(year, 6, 1),
        kind: WarEventKind::Battle(BattleRecord {
            name: String::from("Lund"),
            location: 6,
            attacker_won: true,
            attacker: side(swe, Some("Baner")),
            defender: side(dan, None),
            winner_alliance: 20,
            loser_alliance: 10,
        }),
    };
    let war = WarRecord {
        name: String::from("Long War"),
        original_attacker: swe,
        original_defender: dan,
        events: vec![
            WarEvent { date: Date::new(1500, 1, 1), kind: WarEventKind::AddAttacker(swe) },
            WarEvent { date: Date::new(1500, 1, 1), kind: WarEventKind::AddDefender(dan) },
            battle(1501),
            battle(1505),
        ],
        participants: Vec::new(),
    };
    let save = SaveModel {
        start_date: Date::new(1444, 11, 11),
        save_date: Date::new(1700, 1, 1),
        players: Vec::new(),
        tag_names: Vec::new(),
        countries: vec![sweden, country(dan, Vec::new())],
        provinces: Vec::new(),
        active_wars: Vec::new(),
        previous_wars: vec![war],
    };
    let index = IdentityIndex::build(&save);
    let d = get_war(&save, &index, &String::from("Long War")).unwrap();
    assert_eq!(d.battles.len(), 2);
    let first = d.battles[0].attacker.commander_stats.unwrap();
    let second = d.battles[1].attacker.commander_stats.unwrap();
    // the second battle reuses the stats computed at the first, even though
    // a fresh lookup at its date would find the re-appointment
    assert_eq!(first.fire, 4);
    assert_eq!(second.fire, 4);
}
