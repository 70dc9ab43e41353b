use yo_compat::resp::Reply;

#[test]
fn the_two_spellings_of_nothing_stay_apart() {
    assert_ne!(Reply::Null.render(), Reply::NullBulk.render());
    assert_ne!(Reply::NullBulk.render(), Reply::NullArray.render());
}

#[test]
fn a_bulk_and_a_verbatim_carrying_the_same_bytes_are_not_the_same_reply() {
    let bulk = Reply::Bulk(b"txt:hello".to_vec());
    let verbatim = Reply::Verbatim(b"txt:hello".to_vec());
    assert_ne!(bulk.render(), verbatim.render());
}

#[test]
fn the_first_word_of_an_error_is_the_part_that_has_to_match() {
    let e = Reply::Error(b"WRONGTYPE Operation against a key".to_vec());
    assert_eq!(e.error_word().as_deref(), Some("WRONGTYPE"));
    assert_eq!(Reply::Simple(b"OK".to_vec()).error_word(), None);
}

#[test]
fn every_shape_renders_with_its_tag() {
    assert_eq!(Reply::Simple(b"OK".to_vec()).render(), "+\"OK\"");
    assert_eq!(Reply::Error(b"ERR x".to_vec()).render(), "-\"ERR x\"");
    assert_eq!(Reply::Int(b"42".to_vec()).render(), ":\"42\"");
    assert_eq!(Reply::Bulk(b"foo".to_vec()).render(), "$\"foo\"");
    assert_eq!(Reply::Verbatim(b"txt:a".to_vec()).render(), "=\"txt:a\"");
    assert_eq!(Reply::BulkError(b"ERR y".to_vec()).render(), "!\"ERR y\"");
    assert_eq!(Reply::Double(b"3.14".to_vec()).render(), ",\"3.14\"");
    assert_eq!(Reply::Bool(b"t".to_vec()).render(), "#\"t\"");
    assert_eq!(Reply::BigNumber(b"123".to_vec()).render(), "(\"123\"");
    assert_eq!(Reply::Null.render(), "_");
    assert_eq!(Reply::NullBulk.render(), "$-1");
    assert_eq!(Reply::NullArray.render(), "*-1");
    assert_eq!(Reply::NullVerbatim.render(), "=-1");
    assert_eq!(Reply::NullBulkError.render(), "!-1");
    assert_eq!(Reply::NullSet.render(), "~-1");
    assert_eq!(Reply::NullPush.render(), ">-1");
    assert_eq!(Reply::NullMap.render(), "%-1");
}

#[test]
fn aggregates_render_their_items_joined() {
    let a = Reply::Array(vec![Reply::Int(b"1".to_vec()), Reply::Bulk(b"x".to_vec())]);
    assert_eq!(a.render(), "*[:\"1\", $\"x\"]");
    assert_eq!(Reply::SetOf(vec![]).render(), "~[]");
    assert_eq!(Reply::Push(vec![Reply::Null]).render(), ">[_]");
    let m = Reply::MapOf(vec![
        Reply::Bulk(b"k".to_vec()),
        Reply::Array(vec![Reply::NullBulk, Reply::NullArray]),
    ]);
    assert_eq!(m.render(), "%[$\"k\", *[$-1, *-1]]");
}

#[test]
fn every_byte_of_a_body_shows() {
    assert_eq!(Reply::Bulk(vec![0x66, 0xff, 0x6f]).render(), "$\"f\\xffo\"");
    assert_eq!(Reply::Bulk(vec![0x00, 0x0a, 0x7f]).render(), "$\"\\x00\\x0a\\x7f\"");
    assert_eq!(Reply::Simple(b"a\"b\\c".to_vec()).render(), "+\"a\\\"b\\\\c\"");
    assert_eq!(Reply::Bulk("\u{e9}".as_bytes().to_vec()).render(), "$\"\\xc3\\xa9\"");
    assert_ne!(
        Reply::Bulk(vec![0xfe]).render(),
        Reply::Bulk(vec![0xff]).render()
    );
}

#[test]
fn a_bulk_spelling_minus_one_does_not_print_like_a_null_bulk() {
    assert_ne!(Reply::Bulk(b"-1".to_vec()).render(), Reply::NullBulk.render());
    assert_eq!(Reply::Bulk(b"-1".to_vec()).render(), "$\"-1\"");
    assert_ne!(Reply::Verbatim(b"-1".to_vec()).render(), Reply::NullVerbatim.render());
    assert_ne!(Reply::BulkError(b"-1".to_vec()).render(), Reply::NullBulkError.render());
}

#[test]
fn items_holding_the_separator_do_not_split_another_way() {
    let one = Reply::Array(vec![Reply::Simple(b"a], +b".to_vec())]);
    let two = Reply::Array(vec![Reply::Simple(b"a".to_vec()), Reply::Simple(b"b".to_vec())]);
    assert_ne!(one.render(), two.render());
    assert_eq!(one.render(), "*[+\"a], +b\"]");
    assert_eq!(two.render(), "*[+\"a\", +\"b\"]");
    let nested = Reply::Array(vec![Reply::Array(vec![])]);
    let empty_item = Reply::Array(vec![Reply::Simple(vec![])]);
    assert_ne!(nested.render(), empty_item.render());
}

#[test]
fn the_error_word_skips_leading_whitespace_and_covers_bulk_errors() {
    let e = Reply::BulkError(b"  NOAUTH\tAuthentication required".to_vec());
    assert_eq!(e.error_word().as_deref(), Some("NOAUTH"));
    assert_eq!(Reply::Error(b"   ".to_vec()).error_word().as_deref(), Some(""));
    assert_eq!(Reply::Error(vec![]).error_word().as_deref(), Some(""));
    assert_eq!(Reply::Bulk(b"ERR no".to_vec()).error_word(), None);
    assert_eq!(Reply::Null.error_word(), None);
}

#[test]
fn a_clone_is_the_same_reply() {
    let r = Reply::MapOf(vec![Reply::Bulk(b"k".to_vec()), Reply::NullSet]);
    assert_eq!(r.clone(), r);
}
