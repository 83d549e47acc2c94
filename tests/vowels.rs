use window_match::vowels::vowels_slices;

#[test]
fn find_all_vowels_slices() {
    const DATA: [&str; 3] = ["aEiobbAebOiUbba", "babAbababAbaba", "bbbbbbb"];

    assert_eq!(
        vowels_slices(&DATA),
        vec![
            (0, 0, "aEio".as_bytes()),
            (0, 6, "Ae".as_bytes()),
            (0, 9, "OiU".as_bytes()),
            (0, 14, "a".as_bytes()),
            (1, 1, "a".as_bytes()),
            (1, 3, "A".as_bytes()),
            (1, 5, "a".as_bytes()),
            (1, 7, "a".as_bytes()),
            (1, 9, "A".as_bytes()),
            (1, 11, "a".as_bytes()),
            (1, 13, "a".as_bytes()),
        ]
    );
}

#[test]
fn vowel_offsets_are_byte_offsets() {
    let data = ["\u{e9}au\u{e9}", "", "xyz", "ouI"];
    assert_eq!(
        vowels_slices(&data),
        vec![(0, 2, "au".as_bytes()), (3, 0, "ouI".as_bytes())]
    );
}
