use advanced_subscriber::keformat::{
    history_params, history_query_ke, liveliness_sub_ke, parse_liveliness_token, range_query_ke,
    seq_num_range, split_slashes, str_eq, token_ke, TokenParse,
};
use advanced_subscriber::numfmt::{append_dec, append_hex, parse_dec_u32, parse_hex_u128};
use advanced_subscriber::sample::{SourceId, Timestamp};

#[test]
fn decimal_rendering() {
    let mut s = String::new();
    append_dec(&mut s, 0);
    assert_eq!(s, "0");
    let mut s = String::new();
    append_dec(&mut s, 4294967295);
    assert_eq!(s, "4294967295");
    let mut s = String::from("x=");
    append_dec(&mut s, 105);
    assert_eq!(s, "x=105");
}

#[test]
fn hexadecimal_rendering() {
    let mut s = String::new();
    append_hex(&mut s, 0x1a2b);
    assert_eq!(s, "1a2b");
    let mut s = String::new();
    append_hex(&mut s, 0);
    assert_eq!(s, "0");
    let mut s = String::new();
    append_hex(&mut s, u128::MAX);
    assert_eq!(s, "ffffffffffffffffffffffffffffffff");
}

#[test]
fn decimal_parsing() {
    assert_eq!(parse_dec_u32("0"), Some(0));
    assert_eq!(parse_dec_u32("007"), Some(7));
    assert_eq!(parse_dec_u32("4294967295"), Some(u32::MAX));
    assert_eq!(parse_dec_u32("4294967296"), None);
    assert_eq!(parse_dec_u32(""), None);
    assert_eq!(parse_dec_u32("12x"), None);
    assert_eq!(parse_dec_u32("-1"), None);
}

#[test]
fn hexadecimal_parsing() {
    assert_eq!(parse_hex_u128("1"), Some(1));
    assert_eq!(parse_hex_u128("1a2b"), Some(0x1a2b));
    assert_eq!(parse_hex_u128("FF"), Some(255));
    assert_eq!(parse_hex_u128("ffffffffffffffffffffffffffffffff"), Some(u128::MAX));
    // a node id never starts with a zero
    assert_eq!(parse_hex_u128("0"), None);
    assert_eq!(parse_hex_u128("0f"), None);
    assert_eq!(parse_hex_u128(""), None);
    assert_eq!(parse_hex_u128("xyz"), None);
    // 33 digits overflow
    assert_eq!(parse_hex_u128("1ffffffffffffffffffffffffffffffff"), None);
}

#[test]
fn sequence_range_selectors() {
    assert_eq!(seq_num_range(Some(5), None), "_sn=5..");
    assert_eq!(seq_num_range(None, None), "_sn=..");
    assert_eq!(seq_num_range(Some(1), Some(3)), "_sn=1..3");
    assert_eq!(seq_num_range(None, Some(9)), "_sn=..9");
}

#[test]
fn history_parameter_rendering() {
    assert_eq!(history_params(None, None), "");
    assert_eq!(history_params(Some(10), None), "_max=10");
    assert_eq!(history_params(None, Some(5)), "_time=[now(-5s)..]");
    assert_eq!(history_params(Some(10), Some(5)), "_max=10;_time=[now(-5s)..]");
}

#[test]
fn query_key_expressions() {
    assert_eq!(history_query_ke("demo/a"), "@adv/**/@/demo/a");
    assert_eq!(
        range_query_ke(SourceId { zid: 0x1a2b, eid: 7 }, "demo/a"),
        "@adv/*/1a2b/7/**/@/demo/a"
    );
    assert_eq!(liveliness_sub_ke("demo/a"), "@adv/pub/**/@/demo/a");
    let meta = String::from("m/x");
    assert_eq!(
        token_ke(SourceId { zid: 0xbeef, eid: 3 }, Some(&meta), "demo/a"),
        "@adv/sub/beef/3/m/x/@/demo/a"
    );
    assert_eq!(
        token_ke(SourceId { zid: 0xbeef, eid: 3 }, None, "demo/a"),
        "@adv/sub/beef/3/_/@/demo/a"
    );
}

#[test]
fn splitting_and_string_equality() {
    assert_eq!(split_slashes("a/b//c"), vec!["a", "b", "", "c"]);
    assert_eq!(split_slashes(""), vec![""]);
    assert_eq!(split_slashes("/x"), vec!["", "x"]);
    assert!(str_eq("abc", "abc"));
    assert!(!str_eq("abc", "abd"));
    assert!(!str_eq("abc", "ab"));
}

#[test]
fn token_grammar() {
    match parse_liveliness_token("@adv/pub/1a2b/7/_/@/demo/a") {
        TokenParse::Sequenced(sid) => {
            assert_eq!(sid, SourceId { zid: 0x1a2b, eid: 7 });
        }
        _ => panic!("sequenced publisher token"),
    }
    match parse_liveliness_token("@adv/pub/9/uhlc/_/@/demo/a") {
        TokenParse::Timestamped(node) => assert_eq!(node, 9),
        _ => panic!("timestamped origin token"),
    }
    assert!(matches!(
        parse_liveliness_token("@adv/pub/*/7/_/@/demo/a"),
        TokenParse::Fallback
    ));
    assert!(matches!(
        parse_liveliness_token("@adv/pub/1a2b/nope/_/@/demo/a"),
        TokenParse::BadEid
    ));
    assert!(matches!(parse_liveliness_token("not/a/token"), TokenParse::Malformed));
    assert!(matches!(parse_liveliness_token(""), TokenParse::Malformed));
    // no key expression behind the separator
    assert!(matches!(
        parse_liveliness_token("@adv/pub/1a2b/7/_/@"),
        TokenParse::Malformed
    ));
    // multi-chunk metadata before the first separator chunk
    match parse_liveliness_token("@adv/pub/1a2b/7/m/x/@/demo/a") {
        TokenParse::Sequenced(sid) => assert_eq!(sid.eid, 7),
        _ => panic!("metadata may span several chunks"),
    }
}

#[test]
fn timestamp_order_is_lexicographic() {
    let a = Timestamp { time: 10, id: 9 };
    let b = Timestamp { time: 10, id: 10 };
    let c = Timestamp { time: 11, id: 1 };
    assert!(a.lt(&b));
    assert!(b.lt(&c));
    assert!(a.lt(&c));
    assert!(!c.lt(&a));
    assert!(!a.lt(&a));
}
