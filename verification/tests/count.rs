use cutr::FileInfo;
use cutr::count;
use cutr::format_field;

#[test]
fn test_count() {
    let text = "I don't want the world. I just want your half.\r\n";
    let info = count(text);
    let expected = FileInfo {
        num_lines: 1,
        num_words: 10,
        num_chars: 48,
        num_bytes: 48,
    };
    assert_eq!(info, expected);
}

#[test]
fn test_format_field() {
    assert_eq!(format_field(1, false), "");
    assert_eq!(format_field(3, true), "       3");
    assert_eq!(format_field(10, true), "      10");
}

#[test]
fn count_empty_text() {
    let info = count("");
    assert_eq!(
        info,
        FileInfo { num_lines: 0, num_words: 0, num_bytes: 0, num_chars: 0 }
    );
}

#[test]
fn count_unterminated_last_line() {
    let info = count("one\ntwo");
    assert_eq!(
        info,
        FileInfo { num_lines: 2, num_words: 2, num_bytes: 7, num_chars: 7 }
    );
}

#[test]
fn count_whitespace_only() {
    let info = count(" \t \n");
    assert_eq!(
        info,
        FileInfo { num_lines: 1, num_words: 0, num_bytes: 4, num_chars: 4 }
    );
}

#[test]
fn count_multibyte_characters() {
    // two characters, three bytes, one unterminated line, one word
    let info = count("áb");
    assert_eq!(
        info,
        FileInfo { num_lines: 1, num_words: 1, num_bytes: 3, num_chars: 2 }
    );
}

#[test]
fn format_field_wide_value() {
    // a value wider than the column is not truncated or padded
    assert_eq!(format_field(123456789, true), "123456789");
    assert_eq!(format_field(12345678, true), "12345678");
    assert_eq!(format_field(0, true), "       0");
}
