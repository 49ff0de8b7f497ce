use eu4views::dates::Date;
use eu4views::identity::IdentityIndex;
use eu4views::ledger::{
    filter_stored_tags, gap_fill, get_annual_income_ledger, AiTagsState, OptionalLedgerPoint,
    TagFilterPayload, LEDGER_TAG_LIMIT,
};
use eu4views::model::{
    CountryLedger, CountryRecord, PlayerRecord, SaveModel, StatisticPoint, TagName,
};
use eu4views::tags::Tag;

fn tag(s: &[u8; 3]) -> Tag {
    Tag::from_ascii(s[0], s[1], s[2], 0)
}

fn country(stored: Tag, human: bool, income: Vec<StatisticPoint>) -> CountryRecord {
    CountryRecord {
        stored_tag: stored,
        human,
        is_great_power: false,
        num_of_cities: 1,
        history: Vec::new(),
        mercenary_leaders: Vec::new(),
        raw_losses: Vec::new(),
        ledger: CountryLedger {
            income,
            inflation: Vec::new(),
            score: Vec::new(),
            nation_size: Vec::new(),
        },
    }
}

fn save(countries: Vec<CountryRecord>, players: Vec<PlayerRecord>) -> SaveModel {
    SaveModel {
        start_date: Date::new(1444, 11, 11),
        save_date: Date::new(1700, 1, 1),
        players,
        tag_names: vec![TagName { tag: tag(b"SWE"), name: String::from("Sweden") }],
        countries,
        provinces: Vec::new(),
        active_wars: Vec::new(),
        previous_wars: Vec::new(),
    }
}

fn point(t: Tag, year: u16, value: Option<i32>) -> OptionalLedgerPoint {
    OptionalLedgerPoint { tag: t, year, value }
}

#[test]
fn gap_fill_inserts_nulls_for_skipped_years() {
    let swe = tag(b"SWE");
    let input = vec![point(swe, 1500, Some(10)), point(swe, 1503, Some(15))];
    let filled = gap_fill(&input);
    assert_eq!(
        filled,
        vec![
            point(swe, 1500, Some(10)),
            point(swe, 1501, None),
            point(swe, 1502, None),
            point(swe, 1503, Some(15)),
        ]
    );
}

#[test]
fn gap_fill_is_idempotent() {
    let swe = tag(b"SWE");
    let fra = tag(b"FRA");
    let input = vec![
        point(swe, 1500, Some(10)),
        point(fra, 1490, Some(3)),
        point(swe, 1503, Some(15)),
    ];
    let once = gap_fill(&input);
    let twice = gap_fill(&once);
    assert_eq!(once, twice);
}

#[test]
fn annual_income_ledger_localizes_and_fills() {
    let swe = tag(b"SWE");
    let c = country(
        swe,
        true,
        vec![
            StatisticPoint { year: 1500, value: 10 },
            StatisticPoint { year: 1503, value: 15 },
        ],
    );
    let s = save(vec![c], Vec::new());
    let index = IdentityIndex::build(&s);
    let payload = TagFilterPayload { ai: AiTagsState::All };
    let ledger = get_annual_income_ledger(&s, &index, &payload);
    let expect = vec![
        point(swe, 1500, Some(10)),
        point(swe, 1501, None),
        point(swe, 1502, None),
        point(swe, 1503, Some(15)),
    ];
    assert_eq!(ledger.points, expect);
    assert_eq!(ledger.localization.len(), 1);
    assert_eq!(ledger.localization[0].tag, swe);
    assert_eq!(ledger.localization[0].name, "Sweden");
}

#[test]
fn overflowing_filter_degrades_to_fallback_intersection() {
    let a = tag(b"AAA");
    let b = tag(b"BBB");
    let c = tag(b"CCC");
    let countries = vec![
        country(a, true, Vec::new()),
        country(b, false, Vec::new()),
        country(c, false, Vec::new()),
    ];
    let players = vec![PlayerRecord { name: String::from("one"), tag: a }];
    let s = save(countries, players);
    let payload = TagFilterPayload { ai: AiTagsState::All };
    // three matches exceed the limit of two; a single player means the
    // fallback is "no AI countries", whose intersection is the human tag
    let tags = filter_stored_tags(&s, &payload, 2);
    assert_eq!(tags, vec![a]);
    // under the presentation limit nothing degrades
    let full = filter_stored_tags(&s, &payload, LEDGER_TAG_LIMIT);
    assert_eq!(full, vec![a, b, c]);
}
