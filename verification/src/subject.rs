//! The subject that certificate details name.
use crate::config::{ExtractionConfig, ExtractionMode};
use crate::source::{CertView, ParsedCertMetadata};
use crate::text;
use vstd::prelude::*;

verus! {

/// The text of a subject, or of the reason why there is none.
pub open spec fn view_subject(r: Result<String, String>) -> Result<Seq<char>, Seq<char>> {
    match r {
        Ok(subject) => Ok(subject@),
        Err(reason) => Err(reason@),
    }
}

/// The value of a `CN=` attribute: what stands behind the first `=`, where what
/// stands before it is `CN` in whatever case. White space around both is dropped.
pub open spec fn cn_value(rdn: Seq<char>) -> Option<Seq<char>> {
    let i = text::first_index(rdn, '=');
    if i < rdn.len() && text::ascii_lowercase(text::trimmed(rdn.take(i))) == text::ascii_lowercase(
        "CN"@,
    ) {
        Some(text::trimmed(rdn.skip(i + 1)))
    } else {
        None
    }
}

/// The value of the first of these attributes that is a `CN=` one.
pub open spec fn first_cn(rdns: Seq<Seq<char>>) -> Option<Seq<char>>
    decreases rdns.len(),
{
    if rdns.len() == 0 {
        None
    } else {
        match cn_value(text::trimmed(rdns.first())) {
            Some(cn) => Some(cn),
            None => first_cn(rdns.drop_first()),
        }
    }
}

/// The first common name in a DN, whose attributes are separated by commas.
pub open spec fn common_name_of(dn: Seq<char>) -> Option<Seq<char>> {
    first_cn(text::split_on(dn, ','))
}

/// The attributes of a DN, each without the white space around it, and without
/// those of which nothing is left.
pub open spec fn normalised_rdns(rdns: Seq<Seq<char>>) -> Seq<Seq<char>> {
    rdns.map_values(|rdn: Seq<char>| text::trimmed(rdn)).filter(|rdn: Seq<char>| rdn.len() > 0)
}

/// A DN with its white space normalised.
pub open spec fn normalised_dn(dn: Seq<char>) -> Seq<char> {
    text::join_with(normalised_rdns(text::split_on(dn, ',')), ',')
}

/// The subject that a lower-case fingerprint names: its hexadecimal digits,
/// which must be as many as a SHA-256 has.
pub open spec fn fingerprint_subject_of(lowered: Seq<char>) -> Result<Seq<char>, Seq<char>> {
    let digits = text::hex_digits(lowered);
    if digits.len() == 64 {
        Ok(digits)
    } else {
        Err(
            "fingerprint must be 64 hex chars (sha256); got "@ + text::decimal(digits.len())
                + " chars"@,
        )
    }
}

/// The subject that a common name is, which must not be empty: in lower case
/// unless case counts.
pub open spec fn cn_subject(cn: Option<Seq<char>>, case_sensitive: bool) -> Result<
    Seq<char>,
    Seq<char>,
> {
    match cn {
        None => Err("no CN= in subject_dn"@),
        Some(cn) => if cn.len() == 0 {
            Err("subject CN extraction failed: empty CN"@)
        } else if case_sensitive {
            Ok(cn)
        } else {
            Ok(text::lowercased(cn))
        },
    }
}

/// The subject that certificate details name, or why they name none.
pub open spec fn subject_of(cert: CertView, extraction: ExtractionConfig) -> Result<
    Seq<char>,
    Seq<char>,
> {
    match extraction.mode {
        ExtractionMode::SubjectCn => match cert.subject_dn {
            None => Err("no subject_dn in cert metadata"@),
            Some(dn) => cn_subject(common_name_of(dn), extraction.case_sensitive),
        },
        ExtractionMode::SubjectDn => match cert.subject_dn {
            None => Err("no subject_dn in cert metadata"@),
            Some(dn) => Ok(normalised_dn(dn)),
        },
        ExtractionMode::Fingerprint => match cert.fingerprint_sha256 {
            None => Err("no fingerprint in cert metadata"@),
            Some(fingerprint) => fingerprint_subject_of(text::lowercased(fingerprint)),
        },
    }
}

/// Reads the value of a `CN=` attribute.
fn read_cn<'a>(rdn: &'a str) -> (r: Option<&'a str>)
    ensures
        text::view_option(r) == cn_value(rdn@),
{
    let v = text::chars_of(rdn);
    let i = text::find_char(&v, '=');
    if i >= v.len() {
        return None;
    }
    let key = rdn.substring_char(0, i).trim();
    let value = rdn.substring_char(i + 1, v.len()).trim();
    proof {
        assert(rdn@.subrange(0, i as int) =~= rdn@.take(i as int));
        assert(rdn@.subrange(i + 1, v@.len() as int) =~= rdn@.skip(i + 1));
    }
    if key.eq_ignore_ascii_case("CN") {
        Some(value)
    } else {
        None
    }
}

/// Finds the first common name in a DN.
pub fn common_name<'a>(dn: &'a str) -> (r: Option<&'a str>)
    ensures
        text::view_option(r) == common_name_of(dn@),
{
    let rdns = text::split_str(dn, ',');
    let ghost all = rdns.deep_view();
    let mut i: usize = 0;
    assert(all.skip(0) =~= all);
    while i < rdns.len()
        invariant
            all == rdns.deep_view(),
            all == text::split_on(dn@, ','),
            i <= rdns@.len(),
            first_cn(all.skip(i as int)) == common_name_of(dn@),
        decreases rdns@.len() - i,
    {
        let ghost left = all.skip(i as int);
        let found = read_cn(rdns[i].trim());
        if found.is_some() {
            return found;
        }
        assert(left.drop_first() =~= all.skip(i + 1));
        i += 1;
    }
    None
}

/// Normalises the white space of a DN, so that it makes no two subjects of one.
pub fn normalise_dn(dn: &str) -> (r: String)
    ensures
        r@ == normalised_dn(dn@),
{
    let rdns = text::split_str(dn, ',');
    let ghost all = rdns.deep_view();
    let mut out = String::new();
    let mut started = false;
    let mut i: usize = 0;
    proof {
        reveal(Seq::filter);
        assert(normalised_rdns(all.take(0)) =~= Seq::<Seq<char>>::empty());
    }
    while i < rdns.len()
        invariant
            all == rdns.deep_view(),
            all == text::split_on(dn@, ','),
            i <= rdns@.len(),
            out@ == text::join_with(normalised_rdns(all.take(i as int)), ','),
            started == (normalised_rdns(all.take(i as int)).len() > 0),
        decreases rdns@.len() - i,
    {
        let rdn = rdns[i].trim();
        let ghost kept = normalised_rdns(all.take(i as int));
        proof {
            lemma_normalised_push(all.take(i as int), all[i as int]);
            assert(all.take(i + 1) =~= all.take(i as int).push(all[i as int]));
            assert(kept.push(rdn@).drop_last() =~= kept);
        }
        if !rdn.is_empty() {
            if started {
                out.push(',');
            }
            out.append(rdn);
            started = true;
            assert(out@ =~= text::join_with(kept.push(rdn@), ','));
        }
        i += 1;
    }
    assert(all.take(i as int) =~= all);
    out
}

/// One attribute more is one more normalised attribute, unless nothing is left
/// of it.
pub proof fn lemma_normalised_push(rdns: Seq<Seq<char>>, rdn: Seq<char>)
    ensures
        normalised_rdns(rdns.push(rdn)) == (if text::trimmed(rdn).len() > 0 {
            normalised_rdns(rdns).push(text::trimmed(rdn))
        } else {
            normalised_rdns(rdns)
        }),
{
    reveal(Seq::filter);
    let trim = |r: Seq<char>| text::trimmed(r);
    let mapped = rdns.push(rdn).map_values(trim);
    assert(mapped.drop_last() =~= rdns.map_values(trim));
}

/// Makes a subject of a lower-case fingerprint.
pub fn fingerprint_subject(lowered: &str) -> (r: Result<String, String>)
    ensures
        view_subject(r) == fingerprint_subject_of(lowered@),
{
    let (digits, count) = text::keep_hex_digits(lowered);
    if count == 64 {
        Ok(digits)
    } else {
        let mut reason = "fingerprint must be 64 hex chars (sha256); got ".to_owned();
        text::push_decimal(&mut reason, count);
        reason.append(" chars");
        Err(reason)
    }
}

/// Makes a subject of certificate details. One that is a common name is not empty.
pub fn extract_subject(parsed: &ParsedCertMetadata, extraction: &ExtractionConfig) -> (r: Result<
    String,
    String,
>)
    ensures
        view_subject(r) == subject_of(parsed@, *extraction),
        extraction.mode == ExtractionMode::SubjectCn ==> (r matches Ok(s) ==> s@.len() > 0),
        extraction.mode == ExtractionMode::SubjectCn ==> (r matches Ok(s) ==> {
            &&& parsed.subject_dn matches Some(dn)
            &&& common_name_of(dn@) matches Some(cn)
            &&& s@ == (if extraction.case_sensitive {
                cn
            } else {
                text::unicode_lowercase(cn)
            })
        }),
        extraction.mode == ExtractionMode::SubjectDn ==> (r matches Ok(s) ==> {
            &&& parsed.subject_dn matches Some(dn)
            &&& s@ == normalised_dn(dn@)
        }),
        extraction.mode == ExtractionMode::Fingerprint ==> (r matches Ok(s) ==> {
            &&& parsed.fingerprint_sha256 matches Some(fingerprint)
            &&& s@ == text::hex_digits(text::unicode_lowercase(fingerprint@))
            &&& s@.len() == 64
        }),
{
    match extraction.mode {
        ExtractionMode::SubjectCn => {
            let dn = match &parsed.subject_dn {
                Some(dn) => dn,
                None => return Err("no subject_dn in cert metadata".to_owned()),
            };
            let cn = match common_name(dn.as_str()) {
                Some(cn) => cn,
                None => return Err("no CN= in subject_dn".to_owned()),
            };
            if cn.is_empty() {
                return Err("subject CN extraction failed: empty CN".to_owned());
            }
            if extraction.case_sensitive {
                Ok(cn.to_owned())
            } else {
                Ok(text::lowercase(cn))
            }
        },
        ExtractionMode::SubjectDn => match &parsed.subject_dn {
            Some(dn) => Ok(normalise_dn(dn.as_str())),
            None => Err("no subject_dn in cert metadata".to_owned()),
        },
        ExtractionMode::Fingerprint => match &parsed.fingerprint_sha256 {
            Some(fingerprint) => {
                let lowered = text::lowercase(fingerprint.as_str());
                fingerprint_subject(lowered.as_str())
            },
            None => Err("no fingerprint in cert metadata".to_owned()),
        },
    }
}

} // verus!
