//! Reading `X-Forwarded-Client-Cert` headers.
use mcpg_plugin_identity_mtls::{
    parse_source, parse_xfcc_hop, split_xfcc_hops, ChainPosition, ExtractionHint, Source,
};

#[test]
fn split_xfcc_hops_keeps_quoted_commas_together() {
    let raw = "By=spiffe://a;Subject=\"CN=alice,O=acme,C=US\",\
               By=spiffe://b;Subject=\"CN=bob,O=acme,C=US\"";
    let hops = split_xfcc_hops(raw);
    assert_eq!(hops.len(), 2, "got: {hops:?}");
    assert!(hops[0].contains("CN=alice,O=acme,C=US"));
    assert!(hops[1].contains("CN=bob,O=acme,C=US"));
}

#[test]
fn split_xfcc_hops_single_hop_is_one_element() {
    let hops = split_xfcc_hops("Subject=\"CN=solo,O=acme\"");
    assert_eq!(hops.len(), 1);
}

#[test]
fn hops_of_odd_values() {
    assert_eq!(split_xfcc_hops(""), vec![""]);
    assert_eq!(split_xfcc_hops(","), vec!["", ""]);
    assert_eq!(split_xfcc_hops("a,,b"), vec!["a", "", "b"]);
    assert_eq!(split_xfcc_hops("é,ü"), vec!["é", "ü"]);
    // A quoted run that is never closed runs to the end.
    assert_eq!(split_xfcc_hops("a=\"b,c"), vec!["a=\"b,c"]);
    // An escaped quote does not close the run; an escaped backslash does not
    // escape the quote behind it.
    assert_eq!(split_xfcc_hops("a=\"x\\\",y\",b"), vec!["a=\"x\\\",y\"", "b"]);
    assert_eq!(split_xfcc_hops("a=\"x\\\\\",b"), vec!["a=\"x\\\\\"", "b"]);
    assert_eq!(split_xfcc_hops("a=\"\\é,\",b"), vec!["a=\"\\é,\"", "b"]);
    // Outside a run a backslash is a character like any other.
    assert_eq!(split_xfcc_hops("a\\,b"), vec!["a\\", "b"]);
    assert_eq!(split_xfcc_hops("a\"\\"), vec!["a\"\\"]);
}

#[test]
fn hops_join_to_the_value() {
    for raw in ["", ",", "a,b", "a=\"1,2\",b=\"\\\"\",c", "x\"y,z", "\\\",\\,"] {
        let hops = split_xfcc_hops(raw);
        assert_eq!(hops.join(","), raw);
        for hop in hops {
            assert_eq!(split_xfcc_hops(hop), vec![hop]);
        }
    }
}

#[test]
fn fields_of_a_hop() {
    let map = parse_xfcc_hop(" By = x ;Hash=AB;Subject=\"CN=a\\\"b\\\\c,O=d;e\";URI=");
    assert_eq!(map.entries().len(), 4);
    assert_eq!(map.get("By").map(String::as_str), Some(" x "));
    assert_eq!(map.get("Hash").map(String::as_str), Some("AB"));
    assert_eq!(
        map.get("Subject").map(String::as_str),
        Some("CN=a\"b\\c,O=d;e")
    );
    assert_eq!(map.get("URI").map(String::as_str), Some(""));
}

#[test]
fn fields_of_odd_hops() {
    assert!(parse_xfcc_hop("").entries().is_empty());
    assert!(parse_xfcc_hop("no fields").entries().is_empty());
    // A field without a key counts for nothing.
    assert!(parse_xfcc_hop(" =x").entries().is_empty());
    // Of fields with one key the last counts.
    let map = parse_xfcc_hop("a=1;a=2");
    assert_eq!(map.entries().len(), 1);
    assert_eq!(map.get("a").map(String::as_str), Some("2"));
    // A backslash at the very end stands for itself, and a run may stay open.
    let map = parse_xfcc_hop("a=\"x\\");
    assert_eq!(map.get("a").map(String::as_str), Some("x\\"));
    // Text behind a closing quote belongs to the next key.
    let map = parse_xfcc_hop("a=\"x\"b=y");
    assert_eq!(map.get("a").map(String::as_str), Some("x"));
    assert_eq!(map.get("b").map(String::as_str), Some("y"));
    // A key is text, a value is read byte by byte.
    let map = parse_xfcc_hop("é=é;k=\"\\é\"");
    assert_eq!(map.get("é").map(String::as_str), Some("\u{c3}\u{a9}"));
    assert_eq!(map.get("k").map(String::as_str), Some("\u{c3}\u{a9}"));
}

#[test]
fn commas_and_quotes_are_plain_within_one_hop() {
    let map = parse_xfcc_hop("a,\"b=x,\"y\";c;d=\"1,;=\"");
    assert_eq!(map.entries().len(), 2);
    assert_eq!(map.get("a,\"b").map(String::as_str), Some("x,\"y\""));
    assert_eq!(map.get("c;d").map(String::as_str), Some("1,;="));
}

#[test]
fn written_chain_is_read_back() {
    let value = "a,b;\"c\"\\=d, \\\"";
    let escaped = value.replace('\\', "\\\\").replace('"', "\\\"");
    let raw = format!("K=\"x\",Hash=\"H\";Subject=\"{escaped}\"");
    let headers = vec![("XFCC".to_owned(), raw)];
    let source = Source::Xfcc {
        header: "xfcc".to_owned(),
        chain_position: ChainPosition::Last,
    };
    let parsed = parse_source(&source, &headers).unwrap();
    assert_eq!(parsed.subject_dn.as_deref(), Some(value));
    assert_eq!(parsed.fingerprint_sha256.as_deref(), Some("h"));
    assert_eq!(parsed.source_tag, "xfcc");
    let source = Source::Xfcc {
        header: "xfcc".to_owned(),
        chain_position: ChainPosition::First,
    };
    assert!(parse_source(&source, &headers).is_none());
}

#[test]
fn lower_case_keys_come_second() {
    let headers = vec![(
        "X".to_owned(),
        "subject=b;Subject=a;hash=D;SUBJECT=c".to_owned(),
    )];
    let source = Source::Xfcc {
        header: "X".to_owned(),
        chain_position: ChainPosition::First,
    };
    let parsed = parse_source(&source, &headers).unwrap();
    assert_eq!(parsed.subject_dn.as_deref(), Some("a"));
    assert_eq!(parsed.fingerprint_sha256.as_deref(), Some("d"));
}

#[test]
fn white_space_around_a_hop_is_dropped() {
    let headers = vec![("X".to_owned(), "a=1 ,\u{a0} Subject=x \t".to_owned())];
    let source = Source::Xfcc {
        header: "X".to_owned(),
        chain_position: ChainPosition::Last,
    };
    let parsed = parse_source(&source, &headers).unwrap();
    assert_eq!(parsed.subject_dn.as_deref(), Some("x"));
}

#[test]
fn blank_headers_give_no_details() {
    let headers = vec![("X".to_owned(), " \u{3000}\n".to_owned())];
    let sources = vec![
        Source::Xfcc {
            header: "X".to_owned(),
            chain_position: ChainPosition::First,
        },
        Source::DnString {
            header: "X".to_owned(),
        },
        Source::CustomHeader {
            header: "X".to_owned(),
            extraction_hint: ExtractionHint::Dn,
        },
        Source::CustomHeader {
            header: "X".to_owned(),
            extraction_hint: ExtractionHint::Fingerprint,
        },
    ];
    for source in &sources {
        assert!(parse_source(source, &headers).is_none());
        assert!(parse_source(source, &[]).is_none());
    }
}

#[test]
fn custom_headers_follow_their_hint() {
    let headers = vec![("X".to_owned(), " AB:Ç ".to_owned())];
    let source = Source::CustomHeader {
        header: "x".to_owned(),
        extraction_hint: ExtractionHint::Dn,
    };
    let parsed = parse_source(&source, &headers).unwrap();
    assert_eq!(parsed.subject_dn.as_deref(), Some(" AB:Ç "));
    assert_eq!(parsed.fingerprint_sha256, None);
    assert_eq!(parsed.source_tag, "custom_header");
    let source = Source::CustomHeader {
        header: "x".to_owned(),
        extraction_hint: ExtractionHint::Fingerprint,
    };
    let parsed = parse_source(&source, &headers).unwrap();
    assert_eq!(parsed.subject_dn, None);
    assert_eq!(parsed.fingerprint_sha256.as_deref(), Some(" ab:ç "));
    assert_eq!(parsed.source_tag, "custom_header");
}
