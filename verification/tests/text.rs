use std::borrow::Borrow;

use snep::blob::Blob;
use snep::debug::{debug_utf8, DebugUtf8};
use snep::loc::Loc;
use snep::text::bytes_eq;

#[test]
fn loc_starts_at_row_and_column_zero() {
    let loc = Loc::from("file.txt");
    assert_eq!(loc.name.as_str(), "file.txt");
    assert_eq!((loc.row, loc.col), (0, 0));
    let unknown = Loc::default();
    assert_eq!(unknown.name.as_str(), "");
    assert_eq!((unknown.row, unknown.col), (0, 0));
}

#[test]
fn update_counts_columns_and_rows() {
    let mut loc = Loc::from("f");
    loc.update(b"abc");
    assert_eq!((loc.row, loc.col), (0, 3));
    loc.update(b"");
    assert_eq!((loc.row, loc.col), (0, 3));
    loc.update(b"de\n");
    assert_eq!((loc.row, loc.col), (1, 0));
    loc.update(b"x\n\nyz");
    assert_eq!((loc.row, loc.col), (3, 2));
    loc.update(b"\r\t");
    assert_eq!((loc.row, loc.col), (3, 4));
    assert_eq!(loc.name.as_str(), "f");
}

#[test]
fn update_in_two_steps_is_update_in_one() {
    let text = b"one\ntwo three\n\nfour";
    for cut in 0..=text.len() {
        let mut whole = Loc::from("f");
        whole.update(text);
        let mut parts = Loc::from("f");
        parts.update(&text[..cut]);
        parts.update(&text[cut..]);
        assert_eq!((whole.row, whole.col), (parts.row, parts.col));
    }
}

#[test]
fn loc_is_shown_counting_from_one() {
    let mut loc = Loc::from("dir/file.txt");
    assert_eq!(loc.to_string(), "dir/file.txt:1:1");
    loc.update(b"ab\ncdefghijk");
    assert_eq!(loc.to_string(), "dir/file.txt:2:10");
    let mut out = b">".to_vec();
    loc.write_text(&mut out);
    assert_eq!(out, b">dir/file.txt:2:10");
}

#[test]
fn loc_without_a_name_is_unknown() {
    let mut loc = Loc::default();
    assert_eq!(loc.to_string(), "<unknown>");
    loc.update(b"a\nb");
    assert_eq!(loc.to_string(), "<unknown>");
    assert_eq!(Loc::from("").to_string(), "<unknown>");
}

#[test]
fn loc_at_the_largest_row_is_shown_without_overflow() {
    let mut loc = Loc::from("f");
    loc.row = usize::MAX;
    loc.col = usize::MAX;
    let n = usize::MAX as u128 + 1;
    assert_eq!(loc.to_string(), format!("f:{}:{}", n, n));
}

#[test]
fn loc_with_a_name_that_is_not_ascii() {
    let loc = Loc::from("d\u{e9}j\u{e0}.txt");
    assert_eq!(loc.to_string(), "d\u{e9}j\u{e0}.txt:1:1");
}

#[test]
fn a_cloned_loc_is_the_same_place() {
    let mut loc = Loc::from("name");
    loc.update(b"a\nbc");
    let copy = loc.clone();
    assert_eq!(copy.name.as_str(), "name");
    assert_eq!((copy.row, copy.col), (1, 2));
    let again = loc.duplicate();
    assert_eq!(again.name, loc.name);
    assert_eq!((again.row, again.col), (1, 2));
}

#[test]
fn blob_holds_the_bytes_it_was_made_of() {
    assert_eq!(Blob::from(vec![1u8, 2, 3]).as_bytes(), &[1u8, 2, 3]);
    assert_eq!(Blob::from(&b"abc"[..]).as_bytes(), b"abc");
    assert_eq!(Blob::from("h\u{e9}").as_bytes(), "h\u{e9}".as_bytes());
    assert_eq!(Blob::default().as_bytes(), b"");
    assert_eq!(Blob::from("abc").len(), 3);
    assert_eq!(Blob::default().len(), 0);
}

#[test]
fn blob_as_utf8_accepts_text_and_refuses_other_bytes() {
    assert_eq!(Blob::from("h\u{e9}llo").as_utf8(), Ok("h\u{e9}llo"));
    assert_eq!(Blob::default().as_utf8(), Ok(""));
    assert!(Blob::from(vec![0xffu8, 0x00]).as_utf8().is_err());
    assert!(Blob::from(vec![b'a', 0xc3]).as_utf8().is_err());
}

#[test]
fn blob_concat_joins_the_bytes() {
    let a = Blob::from("ab");
    let b = Blob::from("cd");
    assert_eq!(a.concat(&b).as_bytes(), b"abcd");
    assert_eq!(b.concat(&a).as_bytes(), b"cdab");
    assert_eq!(a.concat(&Blob::default()).as_bytes(), b"ab");
    assert_eq!(a.as_bytes(), b"ab");
}

#[test]
fn blob_clone_and_equality() {
    let a = Blob::from("same");
    let b = a.clone();
    assert_eq!(a, b);
    assert_eq!(b.as_bytes(), b"same");
    assert_eq!(a, Blob::from(&b"same"[..]));
    assert_ne!(a, Blob::from("other"));
    assert!(Blob::from("a") < Blob::from("b"));
}

#[test]
fn bytes_eq_compares_length_and_content() {
    assert!(bytes_eq(b"", b""));
    assert!(bytes_eq(b"abc", b"abc"));
    assert!(!bytes_eq(b"abc", b"abd"));
    assert!(!bytes_eq(b"abc", b"ab"));
    assert!(!bytes_eq(b"", b"a"));
    assert!(!bytes_eq(b"xbc", b"abc"));
}

#[test]
fn debug_utf8_tells_text_from_other_bytes() {
    match debug_utf8("h\u{e9}".as_bytes()) {
        DebugUtf8::ValidUtf8(text) => assert_eq!(text, "h\u{e9}"),
        DebugUtf8::InvalidUtf8(_) => panic!("well-formed text was refused"),
    }
    match debug_utf8(&[0x61, 0xff]) {
        DebugUtf8::InvalidUtf8(bytes) => assert_eq!(bytes, &[0x61, 0xff]),
        DebugUtf8::ValidUtf8(_) => panic!("ill-formed bytes were accepted"),
    }
    assert!(matches!(debug_utf8(b""), DebugUtf8::ValidUtf8("")));
}

#[test]
fn debug_utf8_shows_text_as_it_is_and_other_bytes_in_hex() {
    assert_eq!(debug_utf8("h\u{e9}llo".as_bytes()).to_string(), "h\u{e9}llo");
    assert_eq!(debug_utf8(b"").to_string(), "");
    assert_eq!(debug_utf8(&[0xff, 0x00, 0x1a, 0xa1, 0x09]).to_string(), "ff001aa109");
    assert_eq!(debug_utf8(&[0x80]).to_string(), "80");
    assert_eq!(DebugUtf8::InvalidUtf8(b"\x0f\xf0").to_string(), "0ff0");
}

#[test]
fn blob_is_read_through_the_std_traits() {
    let blob = Blob::from("abc");
    let by_deref: &[u8] = &blob;
    assert_eq!(by_deref, b"abc");
    assert_eq!(blob.iter().count(), 3);
    let by_as_ref: &[u8] = blob.as_ref();
    assert_eq!(by_as_ref, b"abc");
    let by_borrow: &[u8] = blob.borrow();
    assert_eq!(by_borrow, b"abc");
    let boxed: Box<[u8]> = vec![1u8, 2].into_boxed_slice();
    assert_eq!(Blob::from(boxed).as_bytes(), &[1u8, 2]);
}

#[test]
fn blob_add_joins_the_bytes() {
    let a = Blob::from("ab");
    let b = Blob::from("cd");
    assert_eq!((&a + &b).as_bytes(), b"abcd");
    assert_eq!((&b + &a).as_bytes(), b"cdab");
    assert_eq!((&a + &Blob::default()).as_bytes(), b"ab");
}
