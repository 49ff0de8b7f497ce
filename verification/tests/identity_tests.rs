use eu4views::dates::Date;
use eu4views::identity::IdentityIndex;
use eu4views::model::{
    CountryEvent, CountryEventKind, CountryLedger, CountryRecord, SaveModel,
};
use eu4views::tags::Tag;

fn tag(s: &[u8; 3]) -> Tag {
    Tag::from_ascii(s[0], s[1], s[2], 0)
}

fn country(stored: Tag, history: Vec<CountryEvent>) -> CountryRecord {
    CountryRecord {
        stored_tag: stored,
        human: false,
        is_great_power: false,
        num_of_cities: 1,
        history,
        mercenary_leaders: Vec::new(),
        raw_losses: Vec::new(),
        ledger: CountryLedger {
            income: Vec::new(),
            inflation: Vec::new(),
            score: Vec::new(),
            nation_size: Vec::new(),
        },
    }
}

fn save(countries: Vec<CountryRecord>) -> SaveModel {
    SaveModel {
        start_date: Date::new(1444, 11, 11),
        save_date: Date::new(1700, 1, 1),
        players: Vec::new(),
        tag_names: Vec::new(),
        countries,
        provinces: Vec::new(),
        active_wars: Vec::new(),
        previous_wars: Vec::new(),
    }
}

#[test]
fn resolve_returns_owning_identitys_latest_tag() {
    let swe = tag(b"SWE");
    let sca = tag(b"SCA");
    let c = country(
        swe,
        vec![CountryEvent {
            date: Date::new(1600, 1, 1),
            kind: CountryEventKind::TagSwitch(sca),
        }],
    );
    let s = save(vec![c]);
    let index = IdentityIndex::build(&s);
    // during the SWE epoch the identity resolves, and comes back as its latest tag
    assert_eq!(index.resolve(swe, Date::new(1500, 1, 1)), sca);
    // after the switch, SWE is held by nobody: fail-soft returns the input
    assert_eq!(index.resolve(swe, Date::new(1650, 1, 1)), swe);
    // the new tag resolves to itself
    assert_eq!(index.resolve(sca, Date::new(1650, 1, 1)), sca);
}

#[test]
fn resolve_never_errors_on_unknown_tags() {
    let s = save(vec![]);
    let index = IdentityIndex::build(&s);
    let fra = tag(b"FRA");
    assert_eq!(index.resolve(fra, Date::new(1500, 1, 1)), fra);
}

#[test]
fn resolve_picks_interval_containing_the_date_on_tag_reuse() {
    let xyz = tag(b"XYZ");
    let aaa = tag(b"AAA");
    let bbb = tag(b"BBB");
    // identity 1 held XYZ until 1480, then became AAA
    let first = country(
        xyz,
        vec![CountryEvent {
            date: Date::new(1480, 1, 1),
            kind: CountryEventKind::TagSwitch(aaa),
        }],
    );
    // identity 2 adopted XYZ in 1550
    let second = country(
        bbb,
        vec![CountryEvent {
            date: Date::new(1550, 1, 1),
            kind: CountryEventKind::TagSwitch(xyz),
        }],
    );
    let s = save(vec![first, second]);
    let index = IdentityIndex::build(&s);
    // not "most recent use": the interval containing the date decides
    assert_eq!(index.resolve(xyz, Date::new(1460, 1, 1)), aaa);
    assert_eq!(index.resolve(xyz, Date::new(1560, 1, 1)), xyz);
    let detail = index.resolve_detail(xyz, Date::new(1460, 1, 1)).unwrap();
    assert_eq!(detail.stored, xyz);
    assert_eq!(detail.current, aaa);
    let detail2 = index.resolve_detail(xyz, Date::new(1560, 1, 1)).unwrap();
    assert_eq!(detail2.stored, bbb);
    // a date nobody held the tag on resolves to nothing
    assert!(index.resolve_detail(xyz, Date::new(1500, 6, 1)).is_none());
}

#[test]
fn annexed_identity_owns_no_epoch_after_annexation() {
    let xyz = tag(b"XYZ");
    let c = country(
        xyz,
        vec![CountryEvent {
            date: Date::new(1500, 1, 1),
            kind: CountryEventKind::Annexed,
        }],
    );
    let s = save(vec![c]);
    let index = IdentityIndex::build(&s);
    assert_eq!(index.resolve(xyz, Date::new(1450, 1, 1)), xyz);
    assert!(index.resolve_detail(xyz, Date::new(1501, 1, 1)).is_none());
}
