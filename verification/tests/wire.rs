use yo_compat::resp::Reply;
use yo_compat::wire::{decode, encode_command, number, Decoded, ReadError};

fn done(buf: &[u8], eof: bool) -> (Reply, usize) {
    match decode(buf, eof) {
        Decoded::Done(r, n) => (r, n),
        Decoded::Incomplete => panic!("incomplete"),
        Decoded::Failed(_) => panic!("failed"),
    }
}

fn failed(buf: &[u8], eof: bool) -> ReadError {
    match decode(buf, eof) {
        Decoded::Failed(e) => e,
        _ => panic!("did not fail"),
    }
}

#[test]
fn a_command_is_framed_as_an_array_of_bulk_strings() {
    let args = vec!["SET".to_string(), "key".to_string(), "two words".to_string()];
    assert_eq!(
        encode_command(&args),
        b"*3\r\n$3\r\nSET\r\n$3\r\nkey\r\n$9\r\ntwo words\r\n".to_vec()
    );
    assert_eq!(encode_command(&[]), b"*0\r\n".to_vec());
    let wide = vec!["\u{e9}".to_string(); 12];
    let framed = encode_command(&wide);
    assert!(framed.starts_with(b"*12\r\n$2\r\n\xc3\xa9\r\n"));
}

#[test]
fn a_framed_command_reads_back_as_its_arguments() {
    let args = vec!["GET".to_string(), "".to_string(), "a\r\nb".to_string()];
    let mut framed = encode_command(&args);
    let n = framed.len();
    framed.extend_from_slice(b"+OK\r\n");
    let (r, used) = done(&framed, false);
    assert_eq!(used, n);
    assert_eq!(
        r,
        Reply::Array(vec![
            Reply::Bulk(b"GET".to_vec()),
            Reply::Bulk(b"".to_vec()),
            Reply::Bulk(b"a\r\nb".to_vec())
        ])
    );
}

#[test]
fn one_line_replies_keep_their_bytes() {
    assert_eq!(done(b"+OK\r\n", false), (Reply::Simple(b"OK".to_vec()), 5));
    assert_eq!(done(b"-ERR bad\r\n", false), (Reply::Error(b"ERR bad".to_vec()), 10));
    assert_eq!(done(b":42\r\n", false), (Reply::Int(b"42".to_vec()), 5));
    assert_eq!(done(b",3.14\r\n", false), (Reply::Double(b"3.14".to_vec()), 7));
    assert_eq!(done(b"#t\r\n", false), (Reply::Bool(b"t".to_vec()), 4));
    assert_eq!(done(b"(12345\r\n", false), (Reply::BigNumber(b"12345".to_vec()), 8));
    assert_eq!(done(b"_\r\n", false), (Reply::Null, 3));
    assert_eq!(done(b"+OK\r\r\n+X", false), (Reply::Simple(b"OK".to_vec()), 6));
    assert_eq!(done(b"+OK\n", false), (Reply::Simple(b"OK".to_vec()), 4));
}

#[test]
fn bulk_strings_are_read_by_their_length() {
    assert_eq!(done(b"$3\r\nfoo\r\n", false), (Reply::Bulk(b"foo".to_vec()), 9));
    assert_eq!(done(b"=9\r\ntxt:hello\r\n", false), (Reply::Verbatim(b"txt:hello".to_vec()), 15));
    assert_eq!(done(b"!3\r\nERR\r\n", false), (Reply::BulkError(b"ERR".to_vec()), 9));
    assert_eq!(done(b"$0\r\n\r\n", false), (Reply::Bulk(vec![]), 6));
    assert_eq!(done(b"$-1\r\n", false), (Reply::NullBulk, 5));
    assert_eq!(done(b"=-7\r\n", false), (Reply::NullVerbatim, 5));
    assert_eq!(done(b"!-1\r\n", false), (Reply::NullBulkError, 5));
    assert_eq!(done(b"$ 2 \r\nab\r\n", false), (Reply::Bulk(b"ab".to_vec()), 10));
    assert_eq!(done(b"$+2\r\nabXY", false), (Reply::Bulk(b"ab".to_vec()), 9));
}

#[test]
fn aggregates_nest_and_maps_count_pairs() {
    let (r, n) = done(b"*2\r\n:1\r\n*1\r\n$1\r\nx\r\n", false);
    assert_eq!(n, 19);
    assert_eq!(
        r,
        Reply::Array(vec![Reply::Int(b"1".to_vec()), Reply::Array(vec![Reply::Bulk(b"x".to_vec())])])
    );
    let (r, _) = done(b"%1\r\n+k\r\n:2\r\n", false);
    assert_eq!(r, Reply::MapOf(vec![Reply::Simple(b"k".to_vec()), Reply::Int(b"2".to_vec())]));
    assert_eq!(done(b"~0\r\n", false), (Reply::SetOf(vec![]), 4));
    assert_eq!(done(b">1\r\n_\r\n", false), (Reply::Push(vec![Reply::Null]), 7));
    assert_eq!(done(b"*-1\r\n", false), (Reply::NullArray, 5));
    assert_eq!(done(b"%-1\r\n", false), (Reply::NullMap, 5));
    assert_eq!(done(b"~-1\r\n", false), (Reply::NullSet, 5));
    assert_eq!(done(b">-2\r\n", false), (Reply::NullPush, 5));
}

#[test]
fn a_reply_that_has_not_all_arrived_asks_for_more() {
    assert!(matches!(decode(b"", false), Decoded::Incomplete));
    assert!(matches!(decode(b"+OK", false), Decoded::Incomplete));
    assert!(matches!(decode(b"$3\r\nfo", false), Decoded::Incomplete));
    assert!(matches!(decode(b"$3\r\nfoo\r", false), Decoded::Incomplete));
    assert!(matches!(decode(b"*2\r\n:1\r\n", false), Decoded::Incomplete));
}

#[test]
fn at_the_end_of_the_stream_a_partial_reply_is_an_error_or_a_last_line() {
    assert!(matches!(failed(b"", true), ReadError::Closed));
    assert_eq!(done(b"+OK", true), (Reply::Simple(b"OK".to_vec()), 3));
    assert!(matches!(failed(b"$3\r\nfo", true), ReadError::Truncated));
    assert!(matches!(failed(b"*2\r\n:1\r\n", true), ReadError::Closed));
}

#[test]
fn malformed_replies_are_faults() {
    assert!(matches!(failed(b"\r\n", false), ReadError::EmptyReply));
    assert!(matches!(failed(b"?what\r\n", false), ReadError::NotAReplyType(b'?')));
    match failed(b"$abc\r\n", false) {
        ReadError::NotALength(b) => assert_eq!(b, b"abc".to_vec()),
        _ => panic!("wrong fault"),
    }
    assert!(matches!(failed(b"*99999999999999999999\r\n", false), ReadError::NotALength(_)));
    assert!(matches!(failed(b"*1\r\n\r\n", false), ReadError::EmptyReply));
}

#[test]
fn lengths_are_read_as_i64() {
    assert_eq!(number(b"0"), Some(0));
    assert_eq!(number(b" 17\t"), Some(17));
    assert_eq!(number(b"-1"), Some(-1));
    assert_eq!(number(b"+5"), Some(5));
    assert_eq!(number(b"9223372036854775807"), Some(i64::MAX));
    assert_eq!(number(b"-9223372036854775808"), Some(i64::MIN));
    assert_eq!(number(b"9223372036854775808"), None);
    assert_eq!(number(b""), None);
    assert_eq!(number(b"-"), None);
    assert_eq!(number(b"+-1"), None);
    assert_eq!(number(b"1 2"), None);
    assert_eq!(number(b"0x10"), None);
    assert_eq!(number(&[0x31, 0xff]), None);
}

#[test]
fn more_bytes_after_a_whole_reply_change_nothing() {
    let whole = b"*2\r\n$3\r\nfoo\r\n:7\r\n".to_vec();
    let first = done(&whole, false);
    let mut longer = whole.clone();
    longer.extend_from_slice(b"-ERR next\r\n");
    assert_eq!(done(&longer, false), first);
    assert_eq!(done(&longer, true), first);
    assert_eq!(done(&whole, true), first);
    for cut in 0..whole.len() {
        assert!(matches!(decode(&whole[..cut], false), Decoded::Incomplete));
    }
}

#[test]
fn every_spelling_of_null_reads_as_its_own_reply() {
    let spellings: [&[u8]; 8] =
        [b"_\r\n", b"$-1\r\n", b"=-1\r\n", b"!-1\r\n", b"*-1\r\n", b"~-1\r\n", b">-1\r\n", b"%-1\r\n"];
    let replies: Vec<Reply> = spellings.iter().map(|b| done(b, false).0).collect();
    let rendered: Vec<String> = replies.iter().map(|r| r.render()).collect();
    for i in 0..replies.len() {
        for j in 0..replies.len() {
            if i != j {
                assert_ne!(replies[i], replies[j]);
                assert_ne!(rendered[i], rendered[j]);
            }
        }
    }
    assert_eq!(rendered, vec!["_", "$-1", "=-1", "!-1", "*-1", "~-1", ">-1", "%-1"]);
}
