//! Subjects out of certificate details.
use mcpg_plugin_identity_mtls::text::{lowercase, same_text};
use mcpg_plugin_identity_mtls::{
    common_name, extract_subject, fingerprint_subject, normalise_dn, ExtractionConfig,
    ExtractionMode, ParsedCertMetadata,
};

fn with_dn(dn: &str) -> ParsedCertMetadata {
    ParsedCertMetadata {
        subject_dn: Some(dn.to_owned()),
        fingerprint_sha256: None,
        source_tag: "dn_string",
    }
}

fn with_fingerprint(fingerprint: &str) -> ParsedCertMetadata {
    ParsedCertMetadata {
        subject_dn: None,
        fingerprint_sha256: Some(fingerprint.to_owned()),
        source_tag: "custom_header",
    }
}

fn by(mode: ExtractionMode, case_sensitive: bool) -> ExtractionConfig {
    ExtractionConfig {
        mode,
        case_sensitive,
    }
}

#[test]
fn first_common_name_counts() {
    assert_eq!(common_name("O=acme, cn = Alice ,CN=bob"), Some("Alice"));
    assert_eq!(common_name("CN=a=b"), Some("a=b"));
    assert_eq!(common_name("CN,O=x"), None);
    assert_eq!(common_name("XCN=x"), None);
    assert_eq!(common_name("CN=,CN=x"), Some(""));
    assert_eq!(common_name(""), None);
}

#[test]
fn common_name_subjects() {
    let low = by(ExtractionMode::SubjectCn, false);
    let exact = by(ExtractionMode::SubjectCn, true);
    let dn = with_dn("CN=ÀlICE,O=acme");
    assert_eq!(extract_subject(&dn, &low), Ok("àlice".to_owned()));
    assert_eq!(extract_subject(&dn, &exact), Ok("ÀlICE".to_owned()));
    let other = with_dn("cn=aLiCe,o=ACME");
    assert_eq!(
        extract_subject(&other, &low),
        extract_subject(&with_dn("CN=ALICE,O=acme"), &low)
    );
    assert_eq!(
        extract_subject(&with_dn("O=acme"), &low),
        Err("no CN= in subject_dn".to_owned())
    );
    assert_eq!(
        extract_subject(&with_dn("CN= ,O=acme"), &low),
        Err("subject CN extraction failed: empty CN".to_owned())
    );
    assert_eq!(
        extract_subject(&with_fingerprint("ab"), &low),
        Err("no subject_dn in cert metadata".to_owned())
    );
}

#[test]
fn dn_subjects() {
    let by_dn = by(ExtractionMode::SubjectDn, false);
    assert_eq!(
        extract_subject(&with_dn("\tCN=Alice ,, O=acme,  "), &by_dn),
        Ok("CN=Alice,O=acme".to_owned())
    );
    assert_eq!(
        extract_subject(&with_fingerprint("ab"), &by_dn),
        Err("no subject_dn in cert metadata".to_owned())
    );
    assert_eq!(normalise_dn(" , ,"), "");
    let once = normalise_dn(" a\u{a0},b\u{85} ,c d");
    assert_eq!(once, "a,b,c d");
    assert_eq!(normalise_dn(&once), once);
}

#[test]
fn fingerprint_subjects() {
    let by_fingerprint = by(ExtractionMode::Fingerprint, false);
    let digits = "0123456789abcdef".repeat(4);
    let written = digits.to_uppercase().replace('F', "F:-\u{e9} ");
    assert_eq!(
        extract_subject(&with_fingerprint(&written), &by_fingerprint),
        Ok(digits.clone())
    );
    assert_eq!(
        extract_subject(&with_fingerprint(&digits), &by_fingerprint),
        Ok(digits.clone())
    );
    assert_eq!(
        extract_subject(&with_dn("CN=a"), &by_fingerprint),
        Err("no fingerprint in cert metadata".to_owned())
    );
    assert_eq!(
        extract_subject(&with_fingerprint("ghi"), &by_fingerprint),
        Err("fingerprint must be 64 hex chars (sha256); got 0 chars".to_owned())
    );
    assert_eq!(
        fingerprint_subject(&"a".repeat(1065)),
        Err("fingerprint must be 64 hex chars (sha256); got 1065 chars".to_owned())
    );
    // Only the lower-case form is taken, and it keeps the digits as they stand.
    assert_eq!(fingerprint_subject(&"A".repeat(64)), Ok("A".repeat(64)));
}

#[test]
fn fingerprint_subject_is_its_own_digits() {
    let how = by(ExtractionMode::Fingerprint, false);
    let written = "sha256//AbCd-0123:4567 89ef_".repeat(3);
    let own: String = written.chars().filter(char::is_ascii_hexdigit).collect();
    assert_eq!(own.len(), 60);
    assert_eq!(
        extract_subject(&with_fingerprint(&written), &how),
        Err("fingerprint must be 64 hex chars (sha256); got 60 chars".to_owned())
    );
    let written = format!("{written}+FfEe+");
    assert_eq!(
        extract_subject(&with_fingerprint(&written), &how),
        Ok("a256abcd0123456789efa256abcd0123456789efa256abcd0123456789efffee".to_owned())
    );
}

#[test]
fn white_space_is_what_unicode_says() {
    let white = |u: u32| {
        matches!(
            u,
            0x9..=0xd
                | 0x20
                | 0x85
                | 0xa0
                | 0x1680
                | 0x2000..=0x200a
                | 0x2028
                | 0x2029
                | 0x202f
                | 0x205f
                | 0x3000
        )
    };
    for u in 0..=0x10ffff_u32 {
        if let Some(c) = char::from_u32(u) {
            if c != ',' {
                let kept = normalise_dn(&c.to_string());
                assert_eq!(kept.is_empty(), white(u), "{u:x}");
            }
        }
    }
}

#[test]
fn lower_case_forms_hold_no_ascii_capital() {
    for u in 0..=0x10ffff_u32 {
        if let Some(c) = char::from_u32(u) {
            let low = lowercase(&c.to_string());
            assert!(!low.chars().any(|x| x.is_ascii_uppercase()), "{u:x}");
            assert!(!low.is_empty(), "{u:x}");
            if c.is_ascii() {
                assert_eq!(low, c.to_ascii_lowercase().to_string());
            }
        }
    }
}

#[test]
fn common_name_subjects_are_not_empty() {
    for case_sensitive in [false, true] {
        let how = by(ExtractionMode::SubjectCn, case_sensitive);
        for cn in ["a", "Σ", "İ", "\u{200b}"] {
            let subject = extract_subject(&with_dn(&format!("CN={cn}")), &how).unwrap();
            assert!(!subject.is_empty());
        }
    }
}

#[test]
fn same_text_compares_all_of_it() {
    assert!(same_text("", ""));
    assert!(same_text("é1", "é1"));
    assert!(!same_text("é1", "é2"));
    assert!(!same_text("a", "ab"));
}
