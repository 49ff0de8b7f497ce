use eu4views::reports::{letter_frequencies, LetterCount, ProvinceNamesArgs};

#[test]
fn letters_are_tallied_and_sorted_by_frequency() {
    let letters = vec![b'a', b'b', b'a', b'c', b'a', b'b'];
    let freq = letter_frequencies(&letters);
    assert_eq!(
        freq,
        vec![
            LetterCount { letter: b'c', count: 1 },
            LetterCount { letter: b'b', count: 2 },
            LetterCount { letter: b'a', count: 3 },
        ]
    );
}

#[test]
fn empty_input_gives_empty_report() {
    let freq = letter_frequencies(&Vec::new());
    assert!(freq.is_empty());
    let args = ProvinceNamesArgs { file: String::from("campaign.eu4") };
    assert_eq!(args.file, "campaign.eu4");
}
