use nanobyte::groups::group;
use nanobyte::hexbytes::hex_line;
use nanobyte::rank::{rank, rank_top};
use nanobyte::text::{
    chars_of, contains, decimal, find, find_char, push_dec_right, push_hex, push_padded_left,
    push_padded_right, push_zero_padded, read_digits, read_signed, read_unsigned, same_text,
    split_trimmed, trimmed, word,
};

#[test]
fn searching() {
    let v = chars_of("tls → accept");
    assert_eq!(find(&v, "accept"), Some(6));
    assert_eq!(find(&v, ""), Some(0));
    assert_eq!(find(&v, "refuse"), None);
    assert_eq!(find_char(&v, 0, 'c'), Some(7));
    assert_eq!(find_char(&v, 9, 'c'), None);
    assert!(contains("tls handshake eof", "eof"));
    assert!(!contains("eo", "eof"));
    assert!(same_text("a→", "a→"));
    assert!(!same_text("a", "ab"));
}

#[test]
fn trimming_follows_unicode() {
    assert_eq!(trimmed("\u{2003} a b\t\u{85}\n"), "a b");
    assert_eq!(trimmed(" \r\n"), "");
    let every: Vec<char> = ('\0'..=char::MAX).filter(|c| c.is_whitespace()).collect();
    assert_eq!(every.len(), 25);
    for c in every {
        let s = format!("{c}x{c}");
        assert_eq!(trimmed(&s), s.trim());
    }
    assert_eq!(trimmed("\u{200b}x"), "\u{200b}x");
}

#[test]
fn words_and_fields() {
    assert_eq!(word("  15169 15170 "), "15169");
    assert_eq!(word("   "), "");
    assert_eq!(split_trimmed(" a | b|c ", '|'), vec!["a", "b", "c"]);
    assert_eq!(split_trimmed("", '|'), vec![""]);
    assert_eq!(split_trimmed("|", '|'), vec!["", ""]);
}

#[test]
fn numbers_are_written() {
    assert_eq!(decimal(0), "0");
    assert_eq!(decimal(u64::MAX), "18446744073709551615");
    let mut out = String::new();
    push_zero_padded(&mut out, 7, 2);
    push_zero_padded(&mut out, -7, 4);
    push_dec_right(&mut out, 12, 5);
    push_padded_left(&mut out, "hits", 5, ' ');
    push_padded_right(&mut out, "ip", 4);
    push_padded_right(&mut out, "toolong", 4);
    push_hex(&mut out, 0xBEEF, 8, true);
    push_hex(&mut out, 0xBEEF, 4, false);
    assert_eq!(out, "07-007   12 hitsip  toolong0000BEEFbeef");
}

#[test]
fn numbers_are_read() {
    let v = chars_of("+42-7x00255");
    assert_eq!(read_unsigned(&v, 0, 3, 100), Some(42));
    assert_eq!(read_digits(&v, 0, 3, 100), None);
    assert_eq!(read_unsigned(&v, 0, 3, 41), None);
    assert_eq!(read_signed(&v, 3, 5, 9), Some(-7));
    assert_eq!(read_unsigned(&v, 3, 5, 9), None);
    assert_eq!(read_digits(&v, 4, 6, 9), None);
    assert_eq!(read_digits(&v, 6, 11, 255), Some(255));
    assert_eq!(read_digits(&v, 6, 6, 255), None);
    assert_eq!(read_unsigned(&v, 0, 1, 255), None);
}

#[test]
fn hexadecimal_lines() {
    assert_eq!(hex_line(&[0x4E, 0xB0, 0x00, 0xFF]), "4eb000ff");
    assert_eq!(hex_line(&[]), "");
}

#[test]
fn rankings() {
    assert_eq!(rank(&vec![3, 9, 3, 10]), vec![3, 1, 0, 2]);
    assert_eq!(rank_top(&vec![3, 9, 3, 10], 2), vec![3, 1]);
    assert_eq!(rank_top(&vec![3], 5), vec![0]);
    assert_eq!(rank(&vec![]), Vec::<usize>::new());
}

#[test]
fn ranking_keeps_every_item_and_leads_with_the_largest() {
    let measures: Vec<i128> = (0..200).map(|i: i128| (i * 7919) % 101).collect();
    let order = rank(&measures);
    let mut sorted = order.clone();
    sorted.sort();
    assert_eq!(sorted, (0..200).collect::<Vec<usize>>());
    for w in order.windows(2) {
        let (a, b) = (measures[w[0]], measures[w[1]]);
        assert!(a > b || (a == b && w[0] < w[1]));
    }
}

#[test]
fn groups_cover_events() {
    let parts = group(&vec![7u32, 8, 7, 9, 8, 7]);
    assert_eq!(parts, vec![vec![0, 2, 5], vec![1, 4], vec![3]]);
    assert_eq!(parts.iter().map(|p| p.len()).sum::<usize>(), 6);
}
