use eu4views::dates::Date;
use eu4views::model::{CountryLedger, CountryRecord, SaveModel, StatisticPoint};
use eu4views::statistics::get_nation_size_statistics;
use eu4views::tags::Tag;

fn tag(s: &[u8; 3]) -> Tag {
    Tag::from_ascii(s[0], s[1], s[2], 0)
}

fn country(stored: Tag, nation_size: Vec<StatisticPoint>) -> CountryRecord {
    CountryRecord {
        stored_tag: stored,
        human: false,
        is_great_power: false,
        num_of_cities: 1,
        history: Vec::new(),
        mercenary_leaders: Vec::new(),
        raw_losses: Vec::new(),
        ledger: CountryLedger {
            income: Vec::new(),
            inflation: Vec::new(),
            score: Vec::new(),
            nation_size,
        },
    }
}

#[test]
fn nation_sizes_rank_by_year_then_descending_count() {
    let swe = tag(b"SWE");
    let dan = tag(b"DAN");
    let s = SaveModel {
        start_date: Date::new(1444, 11, 11),
        save_date: Date::new(1700, 1, 1),
        players: Vec::new(),
        tag_names: Vec::new(),
        countries: vec![
            country(
                swe,
                vec![
                    StatisticPoint { year: 1500, value: 12 },
                    StatisticPoint { year: 1501, value: 14 },
                ],
            ),
            country(dan, vec![StatisticPoint { year: 1500, value: 20 }]),
        ],
        provinces: Vec::new(),
        active_wars: Vec::new(),
        previous_wars: Vec::new(),
    };
    let r = get_nation_size_statistics(&s);
    assert_eq!(r.len(), 3);
    assert_eq!((r[0].tag, r[0].year, r[0].count), (dan, 1500, 20));
    assert_eq!((r[1].tag, r[1].year, r[1].count), (swe, 1500, 12));
    assert_eq!((r[2].tag, r[2].year, r[2].count), (swe, 1501, 14));
}

#[test]
fn each_year_keeps_at_most_twenty_five_entries() {
    let mut countries = Vec::new();
    for i in 0..30u8 {
        countries.push(country(
            Tag::from_ascii(b'A' + (i / 10), b'A' + (i % 10), b'A', 0),
            vec![StatisticPoint { year: 1500, value: i as i32 }],
        ));
    }
    let s = SaveModel {
        start_date: Date::new(1444, 11, 11),
        save_date: Date::new(1700, 1, 1),
        players: Vec::new(),
        tag_names: Vec::new(),
        countries,
        provinces: Vec::new(),
        active_wars: Vec::new(),
        previous_wars: Vec::new(),
    };
    let r = get_nation_size_statistics(&s);
    assert_eq!(r.len(), 25);
    // the kept entries are the largest, in descending order
    assert_eq!(r[0].count, 29);
    assert_eq!(r[24].count, 5);
}
