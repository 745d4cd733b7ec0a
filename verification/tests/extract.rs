use csv::StringRecord;
use cutr::PosRange;
use cutr::extract_bytes;
use cutr::extract_chars;
use cutr::extract_fields;

fn pr(start: usize, end: usize) -> PosRange {
    PosRange { start, end }
}

#[test]
fn test_extract_chars() {
    assert_eq!(extract_chars("", &[pr(0, 1)]), "".to_string());
    assert_eq!(extract_chars("ábc", &[pr(0, 1)]), "á".to_string());
    assert_eq!(extract_chars("ábc", &[pr(0, 1), pr(2, 3)]), "ác".to_string());
    assert_eq!(extract_chars("ábc", &[pr(0, 3)]), "ábc".to_string());
    assert_eq!(extract_chars("ábc", &[pr(2, 3), pr(1, 2)]), "cb".to_string());
    assert_eq!(
        extract_chars("ábc", &[pr(0, 1), pr(1, 2), pr(4, 5)]),
        "áb".to_string()
    );
}

#[test]
fn test_extract_bytes() {
    assert_eq!(extract_bytes("ábc", &[pr(0, 1)]), "�".to_string());
    assert_eq!(extract_bytes("ábc", &[pr(0, 2)]), "á".to_string());
    assert_eq!(extract_bytes("ábc", &[pr(0, 3)]), "áb".to_string());
    assert_eq!(extract_bytes("ábc", &[pr(0, 4)]), "ábc".to_string());
    assert_eq!(extract_bytes("ábc", &[pr(3, 4), pr(2, 3)]), "cb".to_string());
}

#[test]
fn test_eutract_fields() {
    let rec = StringRecord::from(vec!["Captain", "Sham", "12345"]);
    assert_eq!(extract_fields(&rec, &[pr(0, 1)]), &["Captain"]);
    assert_eq!(extract_fields(&rec, &[pr(1, 2)]), &["Sham"]);
    assert_eq!(
        extract_fields(&rec, &[pr(0, 1), pr(2, 3)]),
        &["Captain", "12345"]
    );
    assert_eq!(extract_fields(&rec, &[pr(0, 1), pr(3, 4)]), &["Captain"]);
    assert_eq!(
        extract_fields(&rec, &[pr(1, 2), pr(0, 1)]),
        &["Sham", "Captain"]
    );
}

#[test]
fn bytes_split_character_gives_one_marker() {
    // one byte of a two-byte character is not valid text: exactly one
    // replacement marker, not two and not a crash
    assert_eq!(extract_bytes("ábc", &[pr(1, 2)]), "�".to_string());
    assert_eq!(extract_bytes("ábc", &[pr(0, 1)]).chars().count(), 1);
}

#[test]
fn bytes_decode_after_concatenate() {
    // the two bytes of the character come from two disjoint one-byte ranges;
    // the concatenated buffer is decoded once, so the character survives
    assert_eq!(extract_bytes("ábc", &[pr(0, 1), pr(1, 2)]), "á".to_string());
}

#[test]
fn chars_full_range_is_identity() {
    let line = "ábc def";
    let len = line.chars().count();
    assert_eq!(extract_chars(line, &[pr(0, len)]), line.to_string());
    assert_eq!(extract_chars("", &[pr(0, 0)]), "".to_string());
}

#[test]
fn chars_out_of_range_dropped() {
    assert_eq!(extract_chars("abc", &[pr(5, 9)]), "".to_string());
    assert_eq!(extract_chars("abc", &[pr(1, 99)]), "bc".to_string());
}

#[test]
fn fields_reapply_same_positions() {
    // re-applying the same position list to the previous output is defined
    // and deterministic; indices refer to the reduced record
    let rec = StringRecord::from(vec!["a", "b", "c", "d"]);
    let pos = [pr(1, 2), pr(3, 4)];
    let once = extract_fields(&rec, &pos);
    assert_eq!(once, &["b", "d"]);
    let reduced = StringRecord::from(once.clone());
    let twice = extract_fields(&reduced, &pos);
    assert_eq!(twice, &["d"]);
    let reduced_again = StringRecord::from(twice.clone());
    assert_eq!(extract_fields(&reduced_again, &pos), extract_fields(&reduced_again, &pos));
}
