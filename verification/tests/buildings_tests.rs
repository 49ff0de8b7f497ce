use eu4views::buildings::{get_building_history, BuildingEntry};
use eu4views::dates::Date;
use eu4views::model::{BuildingEvent, ProvinceRecord, SaveModel};

fn save(provinces: Vec<ProvinceRecord>, start: Date, end: Date) -> SaveModel {
    SaveModel {
        start_date: start,
        save_date: end,
        players: Vec::new(),
        tag_names: Vec::new(),
        countries: Vec::new(),
        provinces,
        active_wars: Vec::new(),
        previous_wars: Vec::new(),
    }
}

fn count_for(rows: &[BuildingEntry], building: &str, year: u16) -> Vec<i32> {
    rows.iter()
        .filter(|r| r.building == building && r.year == year)
        .map(|r| r.count)
        .collect()
}

#[test]
fn fort_constructed_then_demolished_gives_dense_series() {
    // one fort built in 1450 and demolished in 1470 in exactly one province
    let prov = ProvinceRecord {
        building_events: vec![
            BuildingEvent {
                date: Date::new(1450, 5, 1),
                building: String::from("fort_15th"),
                construction: true,
            },
            BuildingEvent {
                date: Date::new(1470, 2, 1),
                building: String::from("fort_15th"),
                construction: false,
            },
        ],
    };
    let s = save(vec![prov], Date::new(1444, 11, 11), Date::new(1480, 1, 1));
    let known = vec![String::from("fort_15th")];
    let rows = get_building_history(&s, &known);
    // exactly one row per year of the campaign range
    assert_eq!(rows.len(), (1480 - 1444 + 1) as usize);
    for year in 1444..=1480u16 {
        let counts = count_for(&rows, "fort_15th", year);
        assert_eq!(counts.len(), 1);
        let expected = if year < 1450 {
            0
        } else if year < 1470 {
            1
        } else {
            0
        };
        assert_eq!(counts[0], expected, "year {}", year);
    }
}

#[test]
fn unrecognized_flags_do_not_count() {
    let prov = ProvinceRecord {
        building_events: vec![BuildingEvent {
            date: Date::new(1450, 5, 1),
            building: String::from("hre"),
            construction: true,
        }],
    };
    let s = save(vec![prov], Date::new(1444, 11, 11), Date::new(1460, 1, 1));
    let known = vec![String::from("fort_15th")];
    let rows = get_building_history(&s, &known);
    assert!(rows.is_empty());
}

#[test]
fn rows_come_in_year_then_reverse_building_order() {
    let prov = ProvinceRecord {
        building_events: vec![
            BuildingEvent {
                date: Date::new(1450, 1, 1),
                building: String::from("temple"),
                construction: true,
            },
            BuildingEvent {
                date: Date::new(1450, 1, 2),
                building: String::from("barracks"),
                construction: true,
            },
        ],
    };
    let s = save(vec![prov], Date::new(1449, 1, 1), Date::new(1451, 1, 1));
    let known = vec![String::from("temple"), String::from("barracks")];
    let rows = get_building_history(&s, &known);
    // two buildings, three years each
    assert_eq!(rows.len(), 6);
    for pair in rows.windows(2) {
        assert!(
            pair[0].year < pair[1].year
                || (pair[0].year == pair[1].year && pair[0].building >= pair[1].building)
        );
    }
}
