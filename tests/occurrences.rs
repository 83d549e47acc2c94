use std::cmp::Ordering;

use window_match::occurrences::{
    vowels_slices_occurrences, vowels_slices_occurrences_case_sensitive, StrWrap,
};

const DATA: [&str; 3] = ["aIebaeabbioubbAiebaiE", "baiebbiouioub", "ioubioub"];

#[test]
fn count_vowel_slices_occurrences() {
    let mut result: Vec<_> = vowels_slices_occurrences(&DATA)
        .into_iter()
        .map(|(slice, occurrences)| (slice.to_lowercase(), occurrences))
        .collect();
    result.sort_unstable_by(|(a, _), (b, _)| a.cmp(b));

    assert_eq!(
        result,
        vec![
            ("aea".as_bytes().to_vec(), 1),
            ("aie".as_bytes().to_vec(), 4),
            ("iou".as_bytes().to_vec(), 3),
            ("iouiou".as_bytes().to_vec(), 1),
        ]
    );
}

#[test]
fn count_vowel_slices_occurrences_case_sensitive() {
    let mut result: Vec<_> = vowels_slices_occurrences_case_sensitive(&DATA)
        .into_iter()
        .map(|(slice, occurrences)| (slice.as_bytes(), occurrences))
        .collect();
    result.sort_unstable_by(|(a, _), (b, _)| a.cmp(b));

    assert_eq!(
        result,
        vec![
            ("Aie".as_bytes(), 1),
            ("aIe".as_bytes(), 1),
            ("aea".as_bytes(), 1),
            ("aiE".as_bytes(), 1),
            ("aie".as_bytes(), 1),
            ("iou".as_bytes(), 3),
            ("iouiou".as_bytes(), 1),
        ]
    );
}

#[test]
fn occurrences_keep_first_spelling_in_key_order() {
    let result = vowels_slices_occurrences(&DATA);
    let keys: Vec<(&[u8], u32)> = result.iter().map(|&(k, n)| (k.as_bytes(), n)).collect();
    assert_eq!(
        keys,
        vec![
            ("aea".as_bytes(), 1),
            ("aIe".as_bytes(), 4),
            ("iou".as_bytes(), 3),
            ("iouiou".as_bytes(), 1),
        ]
    );
}

#[test]
fn occurrences_of_no_runs_are_empty() {
    assert!(vowels_slices_occurrences(&["xyz", "", "bcd"]).is_empty());
}

#[test]
fn str_wrap_orders_ignoring_ascii_case() {
    assert_eq!(StrWrap("aIe".as_bytes()).partial_cmp(&StrWrap("AIE".as_bytes())), Some(Ordering::Equal));
    assert_eq!(StrWrap("Aea".as_bytes()).partial_cmp(&StrWrap("aie".as_bytes())), Some(Ordering::Less));
    assert_eq!(StrWrap("iou".as_bytes()).partial_cmp(&StrWrap("IO".as_bytes())), Some(Ordering::Greater));
    assert!(StrWrap("io".as_bytes()) < StrWrap("IOU".as_bytes()));
}

#[test]
fn str_wrap_ignores_ascii_case() {
    assert!(StrWrap("aIe".as_bytes()) == StrWrap("AiE".as_bytes()));
    assert!(StrWrap("aIe".as_bytes()) != StrWrap("aIo".as_bytes()));
    assert!(StrWrap("ai".as_bytes()) != StrWrap("aie".as_bytes()));
    assert_eq!(StrWrap("AbZ".as_bytes()).to_lowercase(), "abz".as_bytes().to_vec());
}
