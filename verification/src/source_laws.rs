//! What holds of the details that every source gives.
use crate::config::{ChainPosition, ExtractionHint, SourceView};
use crate::source;
use crate::text;
use crate::text_laws;
use crate::xfcc;
use vstd::prelude::*;

verus! {

/// Whether two header names are one, in whatever ASCII case.
pub open spec fn is_same_name(a: Seq<char>, b: Seq<char>) -> bool {
    &&& a.len() == b.len()
    &&& forall|i: int|
        0 <= i < a.len() ==> (#[trigger] a[i] == b[i] || ('A' <= a[i] <= 'Z' && b[i] as int
            == a[i] as int + 32) || ('A' <= b[i] <= 'Z' && a[i] as int == b[i] as int + 32))
}

/// Names are one exactly when they are the same once their ASCII capitals are lowered.
pub proof fn lemma_same_name(a: Seq<char>, b: Seq<char>)
    ensures
        is_same_name(a, b) <==> text::ascii_lowercase(a) == text::ascii_lowercase(b),
{
    let x = text::ascii_lowercase(a);
    let y = text::ascii_lowercase(b);
    assert(x.len() == a.len());
    assert(y.len() == b.len());
    if is_same_name(a, b) {
        assert forall|i: int| 0 <= i < x.len() implies x[i] == y[i] by {
            assert(a[i] == b[i] || ('A' <= a[i] <= 'Z' && b[i] as int == a[i] as int + 32) || ('A'
                <= b[i] <= 'Z' && a[i] as int == b[i] as int + 32));
        }
        assert(x =~= y);
    }
    if x == y {
        assert forall|i: int| 0 <= i < a.len() implies (#[trigger] a[i] == b[i] || ('A' <= a[i]
            <= 'Z' && b[i] as int == a[i] as int + 32) || ('A' <= b[i] <= 'Z' && a[i] as int
            == b[i] as int + 32)) by {
            assert(x[i] == text::ascii_lower(a[i]));
            assert(y[i] == text::ascii_lower(b[i]));
        }
    }
}

/// The value of a header is the whole value of the first header with its name; with no
/// such header there is none. However many headers there are, none is skipped.
pub proof fn law_value_of_the_first_header_with_the_name(
    headers: Seq<(Seq<char>, Seq<char>)>,
    name: Seq<char>,
    i: int,
)
    requires
        0 <= i <= headers.len(),
        forall|j: int| 0 <= j < i ==> !is_same_name((#[trigger] headers[j]).0, name),
        i < headers.len() ==> is_same_name(headers[i].0, name),
    ensures
        source::header_value(headers, name) == (if i < headers.len() {
            Some(headers[i].1)
        } else {
            None
        }),
    decreases headers.len(),
{
    if headers.len() > 0 {
        lemma_same_name(headers[0].0, name);
        if i > 0 {
            assert(!is_same_name(headers[0].0, name));
            let rest = headers.drop_first();
            assert forall|j: int| 0 <= j < i - 1 implies !is_same_name(
                (#[trigger] rest[j]).0,
                name,
            ) by {
                assert(rest[j] == headers[j + 1]);
            }
            law_value_of_the_first_header_with_the_name(rest, name, i - 1);
        }
    }
}

/// A source whose header is not there gives nothing; so does a source that reads a
/// single value, where that value is white space alone.
pub proof fn law_no_value_gives_no_details(
    source: SourceView,
    headers: Seq<(Seq<char>, Seq<char>)>,
)
    ensures
        source::header_value(headers, source.header_name()) is None ==> source::source_details(
            source,
            headers,
        ) is None,
        source !is Xfcc && (source::header_value(headers, source.header_name()) matches Some(raw)
            && text_laws::is_blank(raw)) ==> source::source_details(source, headers) is None,
{
    if let Some(raw) = source::header_value(headers, source.header_name()) {
        text_laws::law_trimming_leaves_nothing_of_white_space_alone(raw);
    }
}

/// A header that holds a single DN is taken for the DN as it is, the whole value with
/// nothing added and nothing left out, and gives no fingerprint.
pub proof fn law_dn_header_gives_its_whole_value(
    headers: Seq<(Seq<char>, Seq<char>)>,
    header: Seq<char>,
    raw: Seq<char>,
)
    requires
        source::header_value(headers, header) == Some(raw),
        !text_laws::is_blank(raw),
    ensures
        source::source_details(SourceView::DnString { header }, headers) matches Some(cert)
            && cert.subject_dn == Some(raw) && cert.fingerprint_sha256 is None && cert.source_tag
            == "dn_string"@,
        source::source_details(
            SourceView::CustomHeader { header, extraction_hint: ExtractionHint::Dn },
            headers,
        ) matches Some(cert) && cert.subject_dn == Some(raw) && cert.fingerprint_sha256 is None
            && cert.source_tag == "custom_header"@,
{
    text_laws::law_trimming_leaves_nothing_of_white_space_alone(raw);
}

/// A header that holds a fingerprint gives its whole value in lower case, and no DN.
pub proof fn law_fingerprint_header_gives_its_whole_value(
    headers: Seq<(Seq<char>, Seq<char>)>,
    header: Seq<char>,
    raw: Seq<char>,
)
    requires
        source::header_value(headers, header) == Some(raw),
        !text_laws::is_blank(raw),
    ensures
        source::source_details(
            SourceView::CustomHeader { header, extraction_hint: ExtractionHint::Fingerprint },
            headers,
        ) matches Some(cert) && cert.subject_dn is None && cert.fingerprint_sha256 == Some(
            text::lowercased(raw),
        ) && cert.source_tag == "custom_header"@,
{
    text_laws::law_trimming_leaves_nothing_of_white_space_alone(raw);
}

/// What the fields of a hop say of a key: the value of the key with a capital, or else
/// of the key without.
pub open spec fn is_said_of(
    said: Option<Seq<char>>,
    fields: Map<Seq<char>, Seq<char>>,
    capital: Seq<char>,
    small: Seq<char>,
) -> bool {
    &&& fields.contains_key(capital) ==> said == Some(fields[capital])
    &&& !fields.contains_key(capital) && fields.contains_key(small) ==> said == Some(fields[small])
    &&& !fields.contains_key(capital) && !fields.contains_key(small) ==> said is None
}

/// Of a chain of hops, whatever it holds, only the first hop or the last counts, as
/// configured, without the white space around it. Its subject DN is the field `Subject`
/// or else `subject`, and its fingerprint the field `Hash` or else `hash` in lower case.
/// No other field gives either, and without any of the four there are no details.
pub proof fn law_details_of_a_chain(
    headers: Seq<(Seq<char>, Seq<char>)>,
    header: Seq<char>,
    chain_position: ChainPosition,
    raw: Seq<char>,
    hop: Seq<char>,
    hash: Option<Seq<char>>,
)
    requires
        source::header_value(headers, header) == Some(raw),
        chain_position == ChainPosition::First ==> hop == xfcc::hops_of(raw)[0],
        chain_position == ChainPosition::Last ==> hop == xfcc::hops_of(raw)[xfcc::hops_of(raw).len()
            - 1],
        is_said_of(hash, xfcc::hop_map(text::trimmed(hop)), "Hash"@, "hash"@),
    ensures
        ({
            let fields = xfcc::hop_map(text::trimmed(hop));
            match source::source_details(SourceView::Xfcc { header, chain_position }, headers) {
                Some(cert) => {
                    &&& is_said_of(cert.subject_dn, fields, "Subject"@, "subject"@)
                    &&& hash is None ==> cert.fingerprint_sha256 is None
                    &&& hash matches Some(h) ==> cert.fingerprint_sha256 == Some(
                        text::lowercased(h),
                    )
                    &&& cert.subject_dn is Some || cert.fingerprint_sha256 is Some
                    &&& cert.source_tag == "xfcc"@
                },
                None => {
                    &&& !fields.contains_key("Subject"@)
                    &&& !fields.contains_key("subject"@)
                    &&& !fields.contains_key("Hash"@)
                    &&& !fields.contains_key("hash"@)
                },
            }
        }),
{
}

/// The details that a source gives rest on the value of its own header alone.
pub proof fn law_details_rest_on_the_sources_own_header(
    source: SourceView,
    headers: Seq<(Seq<char>, Seq<char>)>,
    others: Seq<(Seq<char>, Seq<char>)>,
)
    requires
        source::header_value(headers, source.header_name()) == source::header_value(
            others,
            source.header_name(),
        ),
    ensures
        source::source_details(source, headers) == source::source_details(source, others),
{
}

/// A source reads the header that it names.
pub proof fn law_source_reads_the_header_it_names(
    header: Seq<char>,
    chain_position: ChainPosition,
    extraction_hint: ExtractionHint,
)
    ensures
        (SourceView::Xfcc { header, chain_position }).header_name() == header,
        (SourceView::DnString { header }).header_name() == header,
        (SourceView::CustomHeader { header, extraction_hint }).header_name() == header,
{
}

/// The text of certificate details is that of each part.
pub proof fn law_view_of_details(parsed: source::ParsedCertMetadata, dn: String, hash: String)
    ensures
        parsed.subject_dn is None <==> parsed@.subject_dn is None,
        parsed.subject_dn == Some(dn) ==> parsed@.subject_dn == Some(dn@),
        parsed.fingerprint_sha256 is None <==> parsed@.fingerprint_sha256 is None,
        parsed.fingerprint_sha256 == Some(hash) ==> parsed@.fingerprint_sha256 == Some(hash@),
        parsed@.source_tag == parsed.source_tag@,
{
}

} // verus!
