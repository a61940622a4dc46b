//! Certificate details as one source gives them.
use crate::config::{ChainPosition, ExtractionHint, Source, SourceView};
use crate::string_map::StringMap;
use crate::text;
use crate::xfcc;
use crate::xfcc::{parse_xfcc_hop, split_xfcc_hops};
use vstd::prelude::*;

verus! {

/// The details of a certificate that a source gave.
#[derive(Debug, Clone)]
pub struct ParsedCertMetadata {
    pub subject_dn: Option<String>,
    pub fingerprint_sha256: Option<String>,
    /// The kind of source, which the resolved identity carries as `mtls.source`.
    pub source_tag: &'static str,
}

/// The text of a `ParsedCertMetadata`.
pub struct CertView {
    pub subject_dn: Option<Seq<char>>,
    pub fingerprint_sha256: Option<Seq<char>>,
    pub source_tag: Seq<char>,
}

impl View for ParsedCertMetadata {
    type V = CertView;

    open spec fn view(&self) -> CertView {
        CertView {
            subject_dn: text::view_option(self.subject_dn),
            fingerprint_sha256: text::view_option(self.fingerprint_sha256),
            source_tag: self.source_tag@,
        }
    }
}

/// The value of the first header named `name`, in whatever ASCII case.
pub open spec fn header_value(
    headers: Seq<(Seq<char>, Seq<char>)>,
    name: Seq<char>,
) -> Option<Seq<char>>
    decreases headers.len(),
{
    if headers.len() == 0 {
        None
    } else if text::ascii_lowercase(headers.first().0) == text::ascii_lowercase(name) {
        Some(headers.first().1)
    } else {
        header_value(headers.drop_first(), name)
    }
}

/// Looks a header up by its name.
pub fn lookup_header<'a>(headers: &'a [(String, String)], name: &str) -> (r: Option<&'a str>)
    ensures
        text::view_option(r) == header_value(headers.deep_view(), name@),
{
    let ghost all = headers.deep_view();
    let mut i: usize = 0;
    assert(all.skip(0) =~= all);
    while i < headers.len()
        invariant
            all == headers.deep_view(),
            i <= headers@.len(),
            header_value(all.skip(i as int), name@) == header_value(all, name@),
        decreases headers@.len() - i,
    {
        let ghost left = all.skip(i as int);
        if headers[i].0.as_str().eq_ignore_ascii_case(name) {
            return Some(headers[i].1.as_str());
        }
        assert(left.drop_first() =~= all.skip(i + 1));
        i += 1;
    }
    None
}

/// What `first` leads to, or else what `second` leads to.
pub open spec fn either_field(
    fields: Map<Seq<char>, Seq<char>>,
    first: Seq<char>,
    second: Seq<char>,
) -> Option<Seq<char>> {
    if fields.contains_key(first) {
        Some(fields[first])
    } else if fields.contains_key(second) {
        Some(fields[second])
    } else {
        None
    }
}

/// The hop that counts.
pub open spec fn chosen_hop(raw: Seq<char>, position: ChainPosition) -> Seq<char> {
    match position {
        ChainPosition::First => xfcc::hops_of(raw).first(),
        ChainPosition::Last => xfcc::hops_of(raw).last(),
    }
}

/// The details in the fields of a hop: its subject and its hash, if it has either.
pub open spec fn hop_details(fields: Map<Seq<char>, Seq<char>>) -> Option<CertView> {
    let subject = either_field(fields, "Subject"@, "subject"@);
    let hash = either_field(fields, "Hash"@, "hash"@);
    if subject is None && hash is None {
        None
    } else {
        Some(
            CertView {
                subject_dn: subject,
                fingerprint_sha256: match hash {
                    Some(h) => Some(text::lowercased(h)),
                    None => None,
                },
                source_tag: "xfcc"@,
            },
        )
    }
}

/// The details in the value of an `X-Forwarded-Client-Cert` header.
pub open spec fn xfcc_details(raw: Seq<char>, position: ChainPosition) -> Option<CertView> {
    hop_details(xfcc::hop_map(text::trimmed(chosen_hop(raw, position))))
}

/// The details that `source` gives of a request with these headers, if any.
pub open spec fn source_details(
    source: SourceView,
    headers: Seq<(Seq<char>, Seq<char>)>,
) -> Option<CertView> {
    match header_value(headers, source.header_name()) {
        None => None,
        Some(raw) => match source {
            SourceView::Xfcc { chain_position, .. } => xfcc_details(raw, chain_position),
            SourceView::DnString { .. } => if text::trimmed(raw).len() == 0 {
                None
            } else {
                Some(
                    CertView {
                        subject_dn: Some(raw),
                        fingerprint_sha256: None,
                        source_tag: "dn_string"@,
                    },
                )
            },
            SourceView::CustomHeader { extraction_hint, .. } => if text::trimmed(raw).len() == 0 {
                None
            } else {
                Some(
                    match extraction_hint {
                        ExtractionHint::Dn => CertView {
                            subject_dn: Some(raw),
                            fingerprint_sha256: None,
                            source_tag: "custom_header"@,
                        },
                        ExtractionHint::Fingerprint => CertView {
                            subject_dn: None,
                            fingerprint_sha256: Some(text::lowercased(raw)),
                            source_tag: "custom_header"@,
                        },
                    },
                )
            },
        },
    }
}

/// Finds the field `first`, or else the field `second`.
fn find_field<'a>(fields: &'a StringMap<String>, first: &str, second: &str) -> (r: Option<
    &'a String,
>)
    ensures
        text::view_option(r) == either_field(fields@, first@, second@),
{
    match fields.get(first) {
        Some(value) => Some(value),
        None => fields.get(second),
    }
}

/// Reads the details in the value of an `X-Forwarded-Client-Cert` header.
fn parse_xfcc(raw: &str, position: ChainPosition) -> (r: Option<ParsedCertMetadata>)
    ensures
        text::view_option(r) == xfcc_details(raw@, position),
{
    let hops = split_xfcc_hops(raw);
    let chosen: &str = match position {
        ChainPosition::First => hops[0],
        ChainPosition::Last => hops[hops.len() - 1],
    };
    let fields = parse_xfcc_hop(chosen.trim());
    let subject_dn = match find_field(&fields, "Subject", "subject") {
        Some(subject) => Some(subject.clone()),
        None => None,
    };
    let fingerprint_sha256 = match find_field(&fields, "Hash", "hash") {
        Some(hash) => Some(text::lowercase(hash.as_str())),
        None => None,
    };
    if subject_dn.is_some() || fingerprint_sha256.is_some() {
        Some(ParsedCertMetadata { subject_dn, fingerprint_sha256, source_tag: "xfcc" })
    } else {
        None
    }
}

/// Reads the details that `source` gives of a request with these headers.
pub fn parse_source(source: &Source, headers: &[(String, String)]) -> (r: Option<
    ParsedCertMetadata,
>)
    ensures
        text::view_option(r) == source_details(source@, headers.deep_view()),
        source matches Source::DnString { header } ==> (r matches Some(cert) ==> text::view_option(
            cert.subject_dn,
        ) == header_value(headers.deep_view(), header@)),
        source matches Source::CustomHeader { header, extraction_hint: ExtractionHint::Dn } ==> (
        r matches Some(cert) ==> text::view_option(cert.subject_dn) == header_value(
            headers.deep_view(),
            header@,
        )),
        source matches Source::CustomHeader {
            header,
            extraction_hint: ExtractionHint::Fingerprint,
        } ==> (r matches Some(cert) ==> {
            &&& header_value(headers.deep_view(), header@) matches Some(raw)
            &&& text::view_option(cert.fingerprint_sha256) == Some(text::unicode_lowercase(raw))
        }),
{
    let raw = match lookup_header(headers, source.header_name().as_str()) {
        Some(raw) => raw,
        None => return None,
    };
    match source {
        Source::Xfcc { chain_position, .. } => parse_xfcc(raw, *chain_position),
        Source::DnString { .. } => {
            if raw.trim().is_empty() {
                return None;
            }
            Some(
                ParsedCertMetadata {
                    subject_dn: Some(raw.to_owned()),
                    fingerprint_sha256: None,
                    source_tag: "dn_string",
                },
            )
        },
        Source::CustomHeader { extraction_hint, .. } => {
            if raw.trim().is_empty() {
                return None;
            }
            match extraction_hint {
                ExtractionHint::Dn => Some(
                    ParsedCertMetadata {
                        subject_dn: Some(raw.to_owned()),
                        fingerprint_sha256: None,
                        source_tag: "custom_header",
                    },
                ),
                ExtractionHint::Fingerprint => Some(
                    ParsedCertMetadata {
                        subject_dn: None,
                        fingerprint_sha256: Some(text::lowercase(raw)),
                        source_tag: "custom_header",
                    },
                ),
            }
        },
    }
}

} // verus!
