use eu4views::commanders::{get_commander_stats, CommanderStats};
use eu4views::dates::Date;
use eu4views::model::{
    CountryEvent, CountryEventKind, CountryLedger, CountryRecord, LeaderRecord, RulerRecord,
    SaveModel,
};
use eu4views::tags::Tag;
use eu4views::wars::get_country_casualties;
use eu4views::model::{WarEvent, WarEventKind, WarParticipantRecord, WarRecord};

fn tag(s: &[u8; 3]) -> Tag {
    Tag::from_ascii(s[0], s[1], s[2], 0)
}

fn leader(name: &str, fire: u16) -> LeaderRecord {
    LeaderRecord { name: String::from(name), fire, shock: 2, maneuver: 3, siege: 1 }
}

fn country(stored: Tag, history: Vec<CountryEvent>, mercs: Vec<LeaderRecord>) -> CountryRecord {
    CountryRecord {
        stored_tag: stored,
        human: false,
        is_great_power: false,
        num_of_cities: 1,
        history,
        mercenary_leaders: mercs,
        raw_losses: Vec::new(),
        ledger: CountryLedger {
            income: Vec::new(),
            inflation: Vec::new(),
            score: Vec::new(),
            nation_size: Vec::new(),
        },
    }
}

fn save(countries: Vec<CountryRecord>, previous_wars: Vec<WarRecord>) -> SaveModel {
    SaveModel {
        start_date: Date::new(1444, 11, 11),
        save_date: Date::new(1700, 1, 1),
        players: Vec::new(),
        tag_names: Vec::new(),
        countries,
        provinces: Vec::new(),
        active_wars: Vec::new(),
        previous_wars,
    }
}

#[test]
fn most_recent_appointment_before_the_battle_wins() {
    let swe = tag(b"SWE");
    let history = vec![
        CountryEvent {
            date: Date::new(1490, 1, 1),
            kind: CountryEventKind::Leader(leader("Baner", 1)),
        },
        CountryEvent {
            date: Date::new(1495, 1, 1),
            kind: CountryEventKind::Leader(leader("Baner", 4)),
        },
        // appointed after the battle date: must be ignored
        CountryEvent {
            date: Date::new(1505, 1, 1),
            kind: CountryEventKind::Leader(leader("Baner", 6)),
        },
    ];
    let s = save(vec![country(swe, history, Vec::new())], Vec::new());
    let stats = get_commander_stats(&s, Date::new(1500, 1, 1), &vec![swe], &String::from("Baner"));
    assert_eq!(stats, Some(CommanderStats { fire: 4, shock: 2, maneuver: 3, siege: 1 }));
}

#[test]
fn mercenary_leaders_are_checked_first_and_unknowns_fall_back() {
    let swe = tag(b"SWE");
    let history = vec![CountryEvent {
        date: Date::new(1490, 1, 1),
        kind: CountryEventKind::Monarch(RulerRecord { leader: Some(leader("Karl", 2)) }),
    }];
    let mercs = vec![leader("Karl", 5)];
    let s = save(vec![country(swe, history, mercs)], Vec::new());
    let stats = get_commander_stats(&s, Date::new(1500, 1, 1), &vec![swe], &String::from("Karl"));
    assert_eq!(stats.map(|x| x.fire), Some(5));
    // an unknown commander yields the explicit "unknown" fallback
    let unknown =
        get_commander_stats(&s, Date::new(1500, 1, 1), &vec![swe], &String::from("Nobody"));
    assert!(unknown.is_none());
}

#[test]
fn casualties_report_share_and_war_bounds() {
    let swe = tag(b"SWE");
    let dan = tag(b"DAN");
    let w = WarRecord {
        name: String::from("Northern War"),
        original_attacker: swe,
        original_defender: dan,
        events: vec![
            WarEvent { date: Date::new(1500, 1, 1), kind: WarEventKind::AddAttacker(swe) },
            WarEvent { date: Date::new(1502, 3, 1), kind: WarEventKind::RemoveAttacker(swe) },
        ],
        participants: vec![
            WarParticipantRecord { tag: swe, participation: 30, raw_losses: vec![9] },
            WarParticipantRecord { tag: dan, participation: 10, raw_losses: vec![4] },
        ],
    };
    let s = save(Vec::new(), vec![w]);
    let r = get_country_casualties(&s, swe);
    assert_eq!(r.len(), 1);
    assert_eq!(r[0].war, "Northern War");
    assert_eq!(r[0].losses[0], 9);
    assert_eq!(r[0].participation, 30);
    // 30 of 40 is 75 percent: 7500 basis points
    assert_eq!(r[0].participation_basis_points, 7500);
    assert_eq!(r[0].start, Some(Date::new(1500, 1, 1)));
    assert_eq!(r[0].end, Some(Date::new(1502, 3, 1)));
    // a country that fought nowhere reports nothing
    assert!(get_country_casualties(&s, tag(b"FRA")).is_empty());
}
