use cargo_dyndrv::sorted::sort_texts;
use cargo_dyndrv::text::{
    constant_name, decimal_string, hex_string, join_texts, replace_char, same_text, split_lines,
    split_once, strip_prefix, to_chars, trim,
};

const SAMPLES: [&str; 18] = [
    "", "a", "\n", "\r\n", "a\n", "a\nb", "a\r\nb\r\n", "a\n\nb", "\r", "a\r", "a\r\r\nb", " a b ",
    "\u{a0}x\u{3000}", "\u{85}\u{2028}y\t", "k=v=w", "=", "\u{e9}=\u{1f980}", "\u{1680}z\u{205f}",
];

#[test]
fn lines_agree_with_std() {
    for s in SAMPLES {
        let theirs: Vec<&str> = s.lines().collect();
        assert_eq!(split_lines(s), theirs, "{:?}", s);
    }
}

#[test]
fn trim_agrees_with_std() {
    for s in SAMPLES {
        assert_eq!(trim(s), s.trim(), "{:?}", s);
    }
}

#[test]
fn white_space_agrees_with_std() {
    for code in 0..0x11_0000u32 {
        if let Some(c) = char::from_u32(code) {
            let mut s = String::new();
            s.push(c);
            assert_eq!(trim(&s).is_empty(), c.is_whitespace(), "{:x}", code);
        }
    }
}

#[test]
fn splitting_agrees_with_std() {
    for s in SAMPLES {
        for c in ['=', '\n', 'a', '\u{1f980}'] {
            assert_eq!(split_once(s, c), s.split_once(c), "{:?} at {:?}", s, c);
        }
        for p in ["", "a", "a\n", "k=", "\u{e9}", "longer than all of them"] {
            assert_eq!(strip_prefix(s, p), s.strip_prefix(p), "{:?} without {:?}", s, p);
        }
    }
}

#[test]
fn characters_are_replaced() {
    assert_eq!(replace_char("a-b--c", '-', "_"), "a_b__c");
    assert_eq!(replace_char("-L a -l b", ' ', "\n"), "-L\na\n-l\nb");
    assert_eq!(replace_char("", 'x', "y"), "");
}

#[test]
fn constant_names() {
    assert_eq!(constant_name("env-wrap"), "ENV_WRAP");
    assert_eq!(constant_name("host-cc"), "HOST_CC");
    assert_eq!(constant_name("already_UPPER9"), "ALREADY_UPPER9");
    assert_eq!(constant_name("stra\u{df}e"), "STRASSE");
}

#[test]
fn numbers_are_written() {
    for n in [0u64, 7, 9, 10, 99, 100, 1234567890, u64::MAX] {
        assert_eq!(decimal_string(n), format!("{}", n));
        assert_eq!(hex_string(n, 16), format!("{:016x}", n));
    }
    assert_eq!(hex_string(0xabcdef, 4), "cdef");
    assert_eq!(hex_string(5, 0), "");
}

#[test]
fn texts_are_compared_and_joined() {
    assert!(same_text("ab", "ab"));
    assert!(!same_text("ab", "aB"));
    assert_eq!(to_chars("a\u{e9}"), vec!['a', '\u{e9}']);
    assert_eq!(join_texts(&vec![], ","), "");
    assert_eq!(join_texts(&vec!["a"], ","), "a");
    assert_eq!(join_texts(&vec!["lib", "", "cdylib"], ","), "lib,,cdylib");
}

#[test]
fn texts_are_sorted_as_std_sorts_them() {
    let all = vec![
        "b", "", "a", "ab", "b", "\u{1f980}", "\u{ffff}", "\u{e9}", "aa", "A", "a", "_", "~",
    ];
    let set: std::collections::BTreeSet<&str> = all.iter().copied().collect();
    let theirs: Vec<&str> = set.into_iter().collect();
    assert_eq!(sort_texts(&all), theirs);
}
