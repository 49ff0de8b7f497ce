use eu4views::dates::Date;
use eu4views::identity::IdentityIndex;
use eu4views::model::{
    CountryEvent, CountryEventKind, CountryLedger, CountryRecord, PlayerRecord, SaveModel,
};
use eu4views::players::{get_alive_countries, get_player_standings};
use eu4views::tags::Tag;

fn tag(s: &[u8; 3]) -> Tag {
    Tag::from_ascii(s[0], s[1], s[2], 0)
}

fn country(stored: Tag, human: bool, cities: u32, history: Vec<CountryEvent>) -> CountryRecord {
    CountryRecord {
        stored_tag: stored,
        human,
        is_great_power: false,
        num_of_cities: cities,
        history,
        mercenary_leaders: Vec::new(),
        raw_losses: Vec::new(),
        ledger: CountryLedger {
            income: Vec::new(),
            inflation: Vec::new(),
            score: Vec::new(),
            nation_size: Vec::new(),
        },
    }
}

#[test]
fn alive_countries_and_player_standings() {
    let swe = tag(b"SWE");
    let sca = tag(b"SCA");
    let dan = tag(b"DAN");
    let s = SaveModel {
        start_date: Date::new(1444, 11, 11),
        save_date: Date::new(1700, 1, 1),
        players: vec![PlayerRecord { name: String::from("Alice"), tag: swe }],
        tag_names: Vec::new(),
        countries: vec![
            country(
                swe,
                true,
                10,
                vec![CountryEvent {
                    date: Date::new(1600, 1, 1),
                    kind: CountryEventKind::TagSwitch(sca),
                }],
            ),
            country(dan, false, 0, Vec::new()),
        ],
        provinces: Vec::new(),
        active_wars: Vec::new(),
        previous_wars: Vec::new(),
    };
    assert_eq!(get_alive_countries(&s), vec![swe]);
    let index = IdentityIndex::build(&s);
    let standings = get_player_standings(&s, &index);
    assert_eq!(standings.len(), 1);
    assert_eq!(standings[0].name, "Alice");
    assert_eq!(standings[0].latest, sca);
    assert!(standings[0].annexed.is_none());
    assert!(standings[0].is_human);
    // transitions: the initial tag at the campaign start, then the switch
    assert_eq!(standings[0].transitions.len(), 2);
    assert_eq!(standings[0].transitions[0].tag, swe);
    assert_eq!(standings[0].transitions[0].date, Date::new(1444, 11, 11));
    assert_eq!(standings[0].transitions[1].tag, sca);
    assert_eq!(standings[0].transitions[1].date, Date::new(1600, 1, 1));
    assert_eq!(standings[0].player_names, vec![String::from("Alice")]);
}
