use core::fmt::Write;
use turbo::string::{join, normalize, replace, trim, SmallString, StringBuilder, StringView};
use turbo::Error;

#[test]
fn test_small_string_sso() {
    let s1 = SmallString::from_str("hello").unwrap();
    assert!(matches!(s1, SmallString::Inline { .. }));
    assert_eq!(s1.len(), 5);
    assert_eq!(s1.as_str(), "hello");

    let s2 =
        SmallString::from_str("this is a very long string that will spill onto the heap").unwrap();
    assert!(matches!(s2, SmallString::Heap(..)));
    assert_eq!(s2.len(), 56);

    let mut s3 = SmallString::from_str("inline").unwrap();
    assert!(matches!(s3, SmallString::Inline { .. }));
    s3.push_str(" spill over to heap allocation!").unwrap();
    assert!(matches!(s3, SmallString::Heap(..)));
    assert_eq!(s3.as_str(), "inline spill over to heap allocation!");

    let s4 = SmallString::from_str("hello").unwrap();
    assert_eq!(s1, s4);
    assert_eq!(s1, "hello");
}

#[test]
fn test_string_view_zero_copy() {
    let raw = "Rust is a systems programming language";
    let view = StringView::from_str(raw).unwrap();
    assert_eq!(view.len(), raw.len());
    assert_eq!(view.as_str(), raw);

    let sub = view.slice(10..38).unwrap();
    assert_eq!(sub.as_str(), "systems programming language");
    assert_eq!(sub.offset(), 10);

    let emoji_str = "hello 🦀 world";
    let emoji_view = StringView::from_str(emoji_str).unwrap();
    assert!(emoji_view.slice(6..8).is_err());
    assert!(emoji_view.slice(6..10).is_ok());
}

#[test]
fn test_string_builder() {
    let mut builder = StringBuilder::new();
    builder.push_str("Turbo").unwrap();
    builder.push('-').unwrap();
    builder.push_str("String").unwrap();

    let s = builder.into_string().unwrap();
    assert_eq!(s.as_str(), "Turbo-String");

    let mut format_builder = StringBuilder::new();
    let name = "Rust";
    format_builder
        .write_str(&format!("Value: {}, Name: {}", 42, name))
        .unwrap();
    assert_eq!(format_builder.as_str(), "Value: 42, Name: Rust");
}

#[test]
fn test_string_ops() {
    assert_eq!(trim("  hello  "), "hello");

    let joined = join(&["Rust", "C++", "Go"], " | ").unwrap();
    assert_eq!(joined.as_str(), "Rust | C++ | Go");

    let replaced = replace("banana", "a", "o").unwrap();
    assert_eq!(replaced.as_str(), "bonono");

    let normalized = normalize("  hello   world  \t new  ").unwrap();
    assert_eq!(normalized.as_str(), "hello world new");
}

#[test]
fn small_string_edges() {
    let exactly = SmallString::from_str("0123456789012345678901").unwrap();
    assert!(matches!(exactly, SmallString::Inline { .. }));
    let mut s = SmallString::new();
    assert!(s.is_empty());
    s.push('é').unwrap();
    s.push('🦀').unwrap();
    assert_eq!(s.len(), 6);
    assert_eq!(&*s, "é🦀");
    s.clear();
    assert!(s.is_empty());
    let mut h = SmallString::from_str(&"x".repeat(30)).unwrap();
    h.clear();
    assert!(matches!(h, SmallString::Heap(..)));
    assert_eq!(h, SmallString::default());
    let r: &str = h.as_ref();
    assert_eq!(r, "");
}

#[test]
fn string_view_errors_and_equality() {
    let v = StringView::from_str("héllo").unwrap();
    match v.slice(2..3) {
        Err(Error::InvalidData { reason }) => {
            assert_eq!(reason, "Slice range boundaries are not on character boundaries")
        }
        _ => panic!("expected invalid data"),
    }
    match v.slice(4..9) {
        Err(Error::OutOfBounds { index, len }) => assert_eq!((index, len), (9, 6)),
        _ => panic!("expected out of bounds"),
    }
    let bad = turbo::bytes::ByteView::from_slice(&[0xff, 0x61]).unwrap();
    match StringView::new(bad) {
        Err(Error::InvalidData { reason }) => assert_eq!(reason, "Invalid UTF-8 sequence in ByteView"),
        _ => panic!("expected invalid data"),
    }
    let a = v.slice(0..1).unwrap();
    assert_eq!(a, "h");
    assert_eq!(a, StringView::from_str("h").unwrap());
    assert!(StringView::from_str("").unwrap().is_empty());
}

#[test]
fn string_ops_edges() {
    assert_eq!(join(&[], ",").unwrap().as_str(), "");
    assert_eq!(join(&["solo"], ",").unwrap().as_str(), "solo");
    assert_eq!(replace("", "a", "b").unwrap().as_str(), "");
    assert_eq!(replace("abc", "", "x").unwrap().as_str(), "abc");
    assert_eq!(replace("aaaa", "aa", "b").unwrap().as_str(), "bb");
    assert_eq!(replace("🦀x🦀", "🦀", "crab").unwrap().as_str(), "crabxcrab");
    assert_eq!(normalize(" \u{2003} ").unwrap().as_str(), "");
    assert_eq!(normalize("a\u{3000}\u{3000}b").unwrap().as_str(), "a b");
    assert_eq!(trim("\u{85}x\u{a0}"), "x");
    let mut b = StringBuilder::with_capacity(4).unwrap();
    b.push_str("ab").unwrap();
    assert_eq!(b.len(), 2);
    b.clear();
    assert!(b.is_empty());
    assert!(StringBuilder::default().is_empty());
}

#[test]
fn replace_with_empty_pattern_copies_short_source() {
    let r = replace("short", "", "x").unwrap();
    assert_eq!(r.as_str(), "short");
    let e = replace("", "a", "b").unwrap();
    assert_eq!(e.as_str(), "");
}

#[test]
fn join_of_empty_parts_is_empty() {
    let r = join(&["", "", ""], "").unwrap();
    assert_eq!(r.as_str(), "");
    assert!(r.is_empty());
}

#[test]
fn small_string_push_str_edge_cases() {
    let mut heap = SmallString::from_str("a string that is far too long to stay inline").unwrap();
    heap.push_str("").unwrap();
    assert!(matches!(heap, SmallString::Heap(..)));
    assert_eq!(heap.as_str(), "a string that is far too long to stay inline");

    let mut inline = SmallString::from_str("0123456789").unwrap();
    inline.push_str("0123456789ab").unwrap();
    assert!(matches!(inline, SmallString::Inline { .. }));
    inline.push_str("c").unwrap();
    assert!(matches!(inline, SmallString::Heap(..)));
    assert_eq!(inline.as_str(), "01234567890123456789abc");
}

#[test]
fn small_string_clear_keeps_variant() {
    let mut inline = SmallString::from_str("abc").unwrap();
    inline.clear();
    match inline {
        SmallString::Inline { bytes, len } => {
            assert_eq!(len, 0);
            assert_eq!(bytes, [0u8; 22]);
        }
        SmallString::Heap(..) => panic!("an inline string stays inline"),
    }
    let mut heap = SmallString::from_str("a string that is far too long to stay inline").unwrap();
    let cap = match &heap {
        SmallString::Heap(buf) => buf.capacity(),
        SmallString::Inline { .. } => 0,
    };
    heap.clear();
    match &heap {
        SmallString::Heap(buf) => {
            assert_eq!(buf.len(), 0);
            assert_eq!(buf.capacity(), cap);
        }
        SmallString::Inline { .. } => panic!("a heap string stays on the heap"),
    }
}
