use wfasm::align::round_up;
use wfasm::bytes::{get_le32, or_word, push_le32, push_low32, push_low64, put_le32, put_le64};
use wfasm::names::{place_of, NameMap, Place};
use wfasm::text::{
    chars_of, contains, ends_with_newline, has_nul, join, push_decimal, push_hex, push_hex16,
    push_hex8, push_left_aligned, push_lower_hex16, push_right_aligned, push_signed, same_text,
    starts_with,
};
use wfasm::CodeArena;

#[test]
fn sections_are_aligned_and_apart() {
    let mut a = CodeArena::with_code_header(0x10000, 0x100, 8);
    assert_eq!(a.code_header(), 8);
    assert_eq!(a.used(), 0);
    let first = a.bump(10, 16, 8).unwrap();
    assert_eq!(first, 0x10010);
    assert_eq!(a.used(), 0x1A);
    let second = a.bump(1, 16, 8).unwrap();
    assert_eq!(second, 0x10030);
    assert!(first + 10 <= second - 8);
    // An alignment of zero counts as one.
    assert_eq!(a.allocate(4, 0), Some(0x10031));
    assert_eq!(a.used(), 0x35);
}

#[test]
fn an_exhausted_arena_hands_out_nothing() {
    let mut a = CodeArena::new(0x1000, 32);
    assert_eq!(a.code_header(), 0);
    assert_eq!(a.allocate(33, 1), None);
    assert_eq!(a.allocate(usize::MAX, 1), None);
    assert_eq!(a.used(), 0);
    assert_eq!(a.allocate(32, 1), Some(0x1000));
    assert_eq!(a.allocate(0, 16), Some(0x1020));
    assert_eq!(a.allocate(1, 1), None);
    assert_eq!(a.used(), 32);
}

#[test]
fn the_address_is_aligned_whatever_the_base() {
    let mut a = CodeArena::new(0x1008, 0x100);
    let first = a.allocate(4, 16).unwrap();
    assert_eq!(first, 0x1010);
    assert_eq!(a.used(), 12);
    let second = a.allocate(0x20, 64).unwrap();
    assert_eq!(second, 0x1040);
    let third = a.bump(1, 0, 7).unwrap();
    assert_eq!(third, 0x1067);
    assert!(first + 4 <= second && second + 0x20 <= third - 7);
    assert!(third < 0x1008 + 0x100);
    assert_eq!(a.used(), 0x60);
}

#[test]
fn what_overflows_is_exhausted() {
    let mut a = CodeArena::new(0x1000, 64);
    assert_eq!(a.allocate(16, 16), Some(0x1000));
    assert_eq!(a.bump(1, 16, usize::MAX - 15), None);
    assert_eq!(a.bump(0, usize::MAX, 0), None);
    assert_eq!(a.bump(usize::MAX, 1, usize::MAX), None);
    assert_eq!(a.used(), 16);
    // A region at the very end of the address space.
    let mut a = CodeArena::new(usize::MAX - 64, 64);
    assert_eq!(a.allocate(1, 128), None);
    assert_eq!(a.allocate(1, 1), Some(usize::MAX - 64));
}

#[test]
fn rounding_up() {
    assert_eq!(round_up(0, 16), 0);
    assert_eq!(round_up(1, 16), 16);
    assert_eq!(round_up(16, 16), 16);
    assert_eq!(round_up(0x4001, 0x4000), 0x8000);
}

#[test]
fn little_endian_fields() {
    let mut v = Vec::new();
    push_le32(&mut v, 0x1234_5678);
    push_low32(&mut v, -2);
    push_low64(&mut v, i64::MIN);
    assert_eq!(v[0..8], [0x78, 0x56, 0x34, 0x12, 0xFE, 0xFF, 0xFF, 0xFF]);
    assert_eq!(v[8..], [0, 0, 0, 0, 0, 0, 0, 0x80]);
    assert_eq!(get_le32(&v, 0), 0x1234_5678);
    or_word(&mut v, 0, 0x8000_0001);
    assert_eq!(get_le32(&v, 0), 0x9234_5679);
    put_le32(&mut v, 2, 0);
    assert_eq!(v[0..8], [0x79, 0x56, 0, 0, 0, 0, 0xFF, 0xFF]);
    put_le64(&mut v, 4, 0x0102_0304_0506_0708);
    assert_eq!(v[4..12], [8, 7, 6, 5, 4, 3, 2, 1]);
}

#[test]
fn names_in_order() {
    assert_eq!(place_of("abc", "abd"), Place::Before);
    assert_eq!(place_of("abd", "abc"), Place::Behind);
    assert_eq!(place_of("ab", "abc"), Place::Before);
    assert_eq!(place_of("", ""), Place::Same);
    assert_eq!(place_of("é", "z"), Place::Behind);
    let mut m = NameMap::new();
    for (i, name) in ["rt_key", "a", "rt", "b", "a"].iter().enumerate() {
        m.insert(name.to_string(), i);
    }
    assert_eq!(m.len(), 4);
    assert_eq!(m.get("a"), Some(&4));
    assert_eq!(m.get("c"), None);
    assert!(m.contains_key("rt"));
    let names: Vec<&String> = (0..m.len()).map(|i| m.name(i)).collect();
    assert_eq!(names, ["a", "b", "rt", "rt_key"]);
    assert_eq!(*m.value(3), 0);
}

fn written(f: impl Fn(&mut String)) -> String {
    let mut s = "|".to_string();
    f(&mut s);
    s
}

#[test]
fn numbers_as_text() {
    for v in [0u64, 9, 10, 255, 4096, 0xDEAD_BEEF, u64::MAX] {
        assert_eq!(written(|s| push_decimal(s, v)), format!("|{v}"));
        assert_eq!(written(|s| push_hex(s, v)), format!("|{v:x}"));
        assert_eq!(written(|s| push_hex16(s, v)), format!("|{v:016X}"));
        assert_eq!(written(|s| push_lower_hex16(s, v)), format!("|{v:016x}"));
        assert_eq!(written(|s| push_hex8(s, v as u32)), format!("|{:08X}", v as u32));
    }
    for v in [0i64, -1, 7, i64::MIN, i64::MAX] {
        assert_eq!(written(|s| push_signed(s, v)), format!("|{v}"));
    }
    for t in ["", "7", "HERE", "é", "a long name"] {
        assert_eq!(written(|s| push_left_aligned(s, t, 5)), format!("|{t:<5}"));
        assert_eq!(written(|s| push_right_aligned(s, t, 5)), format!("|{t:>5}"));
    }
}

#[test]
fn looking_at_text() {
    assert!(same_text("añb", "añb"));
    assert!(!same_text("a", "b"));
    assert!(!same_text("a", "ab"));
    assert!(contains("xx.intel_syntax", ".intel_syntax"));
    assert!(contains("abab", "bab"));
    assert!(!contains("abab", "bb"));
    assert!(contains("", ""));
    assert!(!contains("", "a"));
    assert!(starts_with("x86_64", "x86"));
    assert!(!starts_with("x8", "x86"));
    assert!(ends_with_newline("a\n"));
    assert!(!ends_with_newline("a\n "));
    assert!(!ends_with_newline(""));
    assert!(has_nul("a\0"));
    assert!(!has_nul("a0"));
    assert_eq!(chars_of("hé"), vec!['h', 'é']);
    let v = vec!["a".to_string(), "b".to_string(), "".to_string()];
    assert_eq!(join(&v, ", "), "a, b, ");
    assert_eq!(join(&vec![], ", "), "");
}
