use mustache_core::text::{byte_len, char_width, same_text, starts_with, trim};

const SAMPLES: [&str; 12] = [
    "",
    " ",
    "a",
    "  a b  ",
    "\t\n x \r\n",
    "x\u{a0}",
    "\u{2003}é\u{3000}",
    "   ",
    "é",
    " ✓ ✓ ",
    "no-trim",
    "\u{feff}x ",
];

#[test]
fn trim_removes_whitespace_at_both_ends() {
    assert_eq!(trim("  a b \n"), "a b");
    assert_eq!(trim("   "), "");
    assert_eq!(trim(""), "");
    assert_eq!(trim("\u{2003}é\u{3000}"), "é");
    for sample in SAMPLES {
        assert_eq!(trim(sample), sample.trim());
    }
}

#[test]
fn starts_with_compares_characters() {
    assert!(starts_with("{{name}}", "{{"));
    assert!(starts_with("été", "é"));
    assert!(starts_with("abc", ""));
    assert!(starts_with("", ""));
    assert!(!starts_with("{name}}", "{{"));
    assert!(!starts_with("{", "{{"));
    assert!(!starts_with("", "a"));
    for left in SAMPLES {
        for right in SAMPLES {
            assert_eq!(starts_with(left, right), left.starts_with(right));
            assert_eq!(same_text(left, right), left == right);
        }
    }
}

#[test]
fn widths_are_those_of_utf8() {
    assert_eq!(char_width('a'), 1);
    assert_eq!(char_width('\u{7f}'), 1);
    assert_eq!(char_width('\u{80}'), 2);
    assert_eq!(char_width('é'), 2);
    assert_eq!(char_width('\u{7ff}'), 2);
    assert_eq!(char_width('\u{800}'), 3);
    assert_eq!(char_width('✓'), 3);
    assert_eq!(char_width('\u{ffff}'), 3);
    assert_eq!(char_width('\u{10000}'), 4);
    assert_eq!(char_width('\u{10ffff}'), 4);
    assert_eq!(byte_len("aé✓\u{10000}"), 10);
    assert_eq!(byte_len(""), 0);
}
