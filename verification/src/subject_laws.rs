//! What holds of every subject.
use crate::config::{ExtractionConfig, ExtractionMode};
use crate::source::CertView;
use crate::subject;
use crate::text;
use crate::text_laws;
use vstd::prelude::*;
use vstd::utf8::*;

verus! {

/// Every character of `s` satisfies `p`.
pub open spec fn all_chars(s: Seq<char>, p: spec_fn(char) -> bool) -> bool {
    forall|i: int| 0 <= i < s.len() ==> p(#[trigger] s[i])
}

proof fn lemma_trimmed_start_all(s: Seq<char>, p: spec_fn(char) -> bool)
    requires
        all_chars(s, p),
    ensures
        all_chars(text::trimmed_start(s), p),
    decreases s.len(),
{
    if s.len() > 0 && text::is_white_space(s.first()) {
        let rest = s.drop_first();
        assert forall|i: int| 0 <= i < rest.len() implies p(#[trigger] rest[i]) by {
            assert(rest[i] == s[i + 1]);
        }
        lemma_trimmed_start_all(rest, p);
    }
}

proof fn lemma_trimmed_end_all(s: Seq<char>, p: spec_fn(char) -> bool)
    requires
        all_chars(s, p),
    ensures
        all_chars(text::trimmed_end(s), p),
    decreases s.len(),
{
    if s.len() > 0 && text::is_white_space(s.last()) {
        let rest = s.drop_last();
        assert forall|i: int| 0 <= i < rest.len() implies p(#[trigger] rest[i]) by {
            assert(rest[i] == s[i]);
        }
        lemma_trimmed_end_all(rest, p);
    }
}

/// Trimming keeps what holds of every character.
pub proof fn lemma_trimmed_all(s: Seq<char>, p: spec_fn(char) -> bool)
    requires
        all_chars(s, p),
    ensures
        all_chars(text::trimmed(s), p),
{
    lemma_trimmed_start_all(s, p);
    lemma_trimmed_end_all(text::trimmed_start(s), p);
}

/// Splitting keeps what holds of every character.
proof fn lemma_split_all(s: Seq<char>, c: char, p: spec_fn(char) -> bool)
    requires
        all_chars(s, p),
    ensures
        forall|k: int|
            0 <= k < text::split_on(s, c).len() ==> all_chars(#[trigger] text::split_on(s, c)[k], p),
    decreases s.len(),
{
    let i = text::first_index(s, c);
    text::lemma_first_index_bounds(s, c);
    if i < s.len() {
        let head = s.take(i);
        let rest = s.skip(i + 1);
        assert forall|j: int| 0 <= j < head.len() implies p(#[trigger] head[j]) by {
            assert(head[j] == s[j]);
        }
        assert forall|j: int| 0 <= j < rest.len() implies p(#[trigger] rest[j]) by {
            assert(rest[j] == s[i + 1 + j]);
        }
        lemma_split_all(rest, c, p);
        let parts = text::split_on(s, c);
        assert forall|k: int| 0 <= k < parts.len() implies all_chars(#[trigger] parts[k], p) by {
            if k > 0 {
                assert(parts[k] == text::split_on(rest, c)[k - 1]);
            } else {
                assert(parts[k] == head);
            }
        }
    }
}

/// No part holds the separator.
pub proof fn lemma_split_lacks(s: Seq<char>, c: char)
    ensures
        text::split_on(s, c).len() > 0,
        forall|k: int|
            0 <= k < text::split_on(s, c).len() ==> all_chars(
                #[trigger] text::split_on(s, c)[k],
                |x: char| x != c,
            ),
    decreases s.len(),
{
    let i = text::first_index(s, c);
    text::lemma_first_index_bounds(s, c);
    if i < s.len() {
        let rest = s.skip(i + 1);
        lemma_split_lacks(rest, c);
        let parts = text::split_on(s, c);
        assert forall|k: int| 0 <= k < parts.len() implies all_chars(
            #[trigger] parts[k],
            |x: char| x != c,
        ) by {
            if k > 0 {
                assert(parts[k] == text::split_on(rest, c)[k - 1]);
            } else {
                assert(parts[k] == s.take(i));
            }
        }
    }
}

/// Text without the separator is one part.
pub proof fn lemma_split_plain(s: Seq<char>, c: char)
    requires
        all_chars(s, |x: char| x != c),
    ensures
        text::split_on(s, c) == seq![s],
{
    assert forall|j: int| 0 <= j < s.len() implies s[j] != c by {
        assert((|x: char| x != c)(s[j]));
    }
    text::lemma_first_index(s, c, s.len() as int);
}

/// The parts of two texts with a separator between them.
pub proof fn lemma_split_concat(a: Seq<char>, b: Seq<char>, c: char)
    ensures
        text::split_on(a.push(c) + b, c) == text::split_on(a, c) + text::split_on(b, c),
    decreases a.len(),
{
    let s = a.push(c) + b;
    let i = text::first_index(a, c);
    text::lemma_first_index_bounds(a, c);
    assert forall|j: int| 0 <= j < i implies s[j] != c by {
        assert(s[j] == a[j]);
    }
    assert(s[i] == c);
    text::lemma_first_index(s, c, i);
    if i < a.len() {
        let rest = a.skip(i + 1);
        lemma_split_concat(rest, b, c);
        assert(s.take(i) =~= a.take(i));
        assert(s.skip(i + 1) =~= rest.push(c) + b);
        assert(seq![a.take(i)] + (text::split_on(rest, c) + text::split_on(b, c)) =~= (
        seq![a.take(i)] + text::split_on(rest, c)) + text::split_on(b, c));
    } else {
        assert(s.take(i) =~= a);
        assert(s.skip(i + 1) =~= b);
    }
}

/// Parts without separators, joined and split again, are the same parts.
pub proof fn lemma_split_join(parts: Seq<Seq<char>>, c: char)
    requires
        parts.len() > 0,
        forall|k: int|
            0 <= k < parts.len() ==> all_chars(#[trigger] parts[k], |x: char| x != c),
    ensures
        text::split_on(text::join_with(parts, c), c) == parts,
    decreases parts.len(),
{
    let n = parts.len() - 1;
    assert(all_chars(parts[n], |x: char| x != c));
    lemma_split_plain(parts[n], c);
    if n > 0 {
        let start = parts.drop_last();
        assert forall|k: int| 0 <= k < start.len() implies all_chars(
            #[trigger] start[k],
            |x: char| x != c,
        ) by {
            assert(start[k] == parts[k]);
        }
        lemma_split_join(start, c);
        lemma_split_concat(text::join_with(start, c), parts.last(), c);
        assert(start + seq![parts.last()] =~= parts);
    } else {
        assert(seq![parts[0]] =~= parts);
    }
}

/// Trimming twice is trimming once.
pub proof fn lemma_trimmed_idempotent(s: Seq<char>)
    ensures
        text::trimmed(text::trimmed(s)) == text::trimmed(s),
{
    lemma_trimmed_start_clean(s);
    lemma_trimmed_end_clean(text::trimmed_start(s));
    text::lemma_trimmed_ends(text::trimmed(s));
}

proof fn lemma_trimmed_start_clean(s: Seq<char>)
    ensures
        text::trimmed_start(s).len() > 0 ==> !text::is_white_space(text::trimmed_start(s).first()),
    decreases s.len(),
{
    if s.len() > 0 {
        lemma_trimmed_start_clean(s.drop_first());
    }
}

proof fn lemma_trimmed_end_clean(s: Seq<char>)
    ensures
        text::trimmed_end(s).len() > 0 ==> {
            &&& !text::is_white_space(text::trimmed_end(s).last())
            &&& text::trimmed_end(s).first() == s.first()
        },
    decreases s.len(),
{
    if s.len() > 0 && text::is_white_space(s.last()) {
        lemma_trimmed_end_clean(s.drop_last());
    }
}

/// What is left of attributes after normalising: no part is empty, none has white
/// space around it, none holds a comma that it did not hold before.
proof fn lemma_normalised_rdns(rdns: Seq<Seq<char>>)
    requires
        forall|k: int|
            0 <= k < rdns.len() ==> all_chars(#[trigger] rdns[k], |x: char| x != ','),
    ensures
        forall|k: int|
            0 <= k < subject::normalised_rdns(rdns).len() ==> {
                let rdn = #[trigger] subject::normalised_rdns(rdns)[k];
                rdn.len() > 0 && text::trimmed(rdn) == rdn && all_chars(rdn, |x: char| x != ',')
            },
    decreases rdns.len(),
{
    if rdns.len() == 0 {
        reveal(Seq::filter);
        assert(rdns.map_values(|rdn: Seq<char>| text::trimmed(rdn)).len() == 0);
    } else {
        let start = rdns.drop_last();
        let last = rdns.last();
        assert forall|k: int| 0 <= k < start.len() implies all_chars(
            #[trigger] start[k],
            |x: char| x != ',',
        ) by {
            assert(start[k] == rdns[k]);
        }
        lemma_normalised_rdns(start);
        subject::lemma_normalised_push(start, last);
        assert(start.push(last) =~= rdns);
        assert(all_chars(rdns[rdns.len() - 1], |x: char| x != ','));
        lemma_trimmed_all(last, |x: char| x != ',');
        lemma_trimmed_idempotent(last);
        let all = subject::normalised_rdns(rdns);
        let old = subject::normalised_rdns(start);
        assert forall|k: int| 0 <= k < all.len() implies {
            let rdn = #[trigger] all[k];
            rdn.len() > 0 && text::trimmed(rdn) == rdn && all_chars(rdn, |x: char| x != ',')
        } by {
            if k < old.len() {
                assert(all[k] == old[k]);
            }
        }
    }
}

/// Normalised attributes stay as they are.
proof fn lemma_normalised_stay(rdns: Seq<Seq<char>>)
    requires
        forall|k: int|
            0 <= k < rdns.len() ==> (#[trigger] rdns[k]).len() > 0 && text::trimmed(rdns[k])
                == rdns[k],
    ensures
        subject::normalised_rdns(rdns) == rdns,
    decreases rdns.len(),
{
    if rdns.len() == 0 {
        reveal(Seq::filter);
        assert(rdns.map_values(|rdn: Seq<char>| text::trimmed(rdn)) =~= rdns);
    } else {
        let start = rdns.drop_last();
        assert forall|k: int| 0 <= k < start.len() implies (#[trigger] start[k]).len() > 0
            && text::trimmed(start[k]) == start[k] by {
            assert(start[k] == rdns[k]);
        }
        lemma_normalised_stay(start);
        assert(rdns[rdns.len() - 1].len() > 0);
        subject::lemma_normalised_push(start, rdns.last());
        assert(start.push(rdns.last()) =~= rdns);
    }
}

/// A normalised DN is its own normal form.
pub proof fn law_normalising_twice_is_normalising_once(dn: Seq<char>)
    ensures
        subject::normalised_dn(subject::normalised_dn(dn)) == subject::normalised_dn(dn),
{
    let rdns = text::split_on(dn, ',');
    lemma_split_lacks(dn, ',');
    let parts = subject::normalised_rdns(rdns);
    lemma_normalised_rdns(rdns);
    let out = subject::normalised_dn(dn);
    if parts.len() == 0 {
        let none = Seq::<char>::empty();
        assert(out == none);
        lemma_split_plain(none, ',');
        assert(text::trimmed(none) =~= none);
        subject::lemma_normalised_push(Seq::empty(), none);
        assert(Seq::<Seq<char>>::empty().push(none) =~= seq![none]);
        lemma_normalised_stay(Seq::empty());
    } else {
        assert forall|k: int| 0 <= k < parts.len() implies all_chars(
            #[trigger] parts[k],
            |x: char| x != ',',
        ) by {}
        lemma_split_join(parts, ',');
        assert forall|k: int| 0 <= k < parts.len() implies (#[trigger] parts[k]).len() > 0
            && text::trimmed(parts[k]) == parts[k] by {}
        lemma_normalised_stay(parts);
    }
}

proof fn lemma_normalised_concat(a: Seq<Seq<char>>, b: Seq<Seq<char>>)
    ensures
        subject::normalised_rdns(a + b) == subject::normalised_rdns(a) + subject::normalised_rdns(b),
    decreases b.len(),
{
    if b.len() == 0 {
        assert(a + b =~= a);
        lemma_normalised_stay(b);
        assert(subject::normalised_rdns(a) + subject::normalised_rdns(b)
            =~= subject::normalised_rdns(a));
    } else {
        let start = b.drop_last();
        lemma_normalised_concat(a, start);
        assert(a + b =~= (a + start).push(b.last()));
        assert(b =~= start.push(b.last()));
        subject::lemma_normalised_push(a + start, b.last());
        subject::lemma_normalised_push(start, b.last());
        assert(subject::normalised_rdns(a + b) =~= subject::normalised_rdns(a)
            + subject::normalised_rdns(b));
    }
}

/// White space at the end does not survive trimming.
proof fn lemma_trimmed_push_white(s: Seq<char>, c: char)
    requires
        text::is_white_space(c),
    ensures
        text::trimmed(s.push(c)) == text::trimmed(s),
    decreases s.len(),
{
    if s.len() == 0 {
        assert(s.push(c).drop_first() =~= s);
    } else if text::is_white_space(s.first()) {
        assert(s.push(c).drop_first() =~= s.drop_first().push(c));
        lemma_trimmed_push_white(s.drop_first(), c);
    } else {
        assert(s.push(c).drop_last() =~= s);
    }
}

/// White space behind a text does not survive trimming.
pub proof fn lemma_trimmed_white_behind(s: Seq<char>, w: Seq<char>)
    requires
        all_chars(w, |x: char| text::is_white_space(x)),
    ensures
        text::trimmed(s + w) == text::trimmed(s),
    decreases w.len(),
{
    if w.len() == 0 {
        assert(s + w =~= s);
    } else {
        let start = w.drop_last();
        assert((|x: char| text::is_white_space(x))(w[w.len() - 1]));
        assert forall|i: int| 0 <= i < start.len() implies (|x: char| text::is_white_space(x))(
            #[trigger] start[i],
        ) by {
            assert((|x: char| text::is_white_space(x))(w[i]));
        }
        lemma_trimmed_white_behind(s, start);
        lemma_trimmed_push_white(s + start, w.last());
        assert((s + start).push(w.last()) =~= s + w);
    }
}

/// White space before a text does not survive trimming.
pub proof fn lemma_trimmed_white_before(w: Seq<char>, s: Seq<char>)
    requires
        all_chars(w, |x: char| text::is_white_space(x)),
    ensures
        text::trimmed(w + s) == text::trimmed(s),
    decreases w.len(),
{
    if w.len() == 0 {
        assert(w + s =~= s);
    } else {
        let rest = w.drop_first();
        assert((|x: char| text::is_white_space(x))(w[0]));
        assert forall|i: int| 0 <= i < rest.len() implies (|x: char| text::is_white_space(x))(
            #[trigger] rest[i],
        ) by {
            assert((|x: char| text::is_white_space(x))(w[i + 1]));
        }
        lemma_trimmed_white_before(rest, s);
        assert((w + s).drop_first() =~= rest + s);
    }
}

/// One attribute is normalised by trimming.
proof fn lemma_normalised_one(a: Seq<char>, b: Seq<char>)
    requires
        text::trimmed(a) == text::trimmed(b),
    ensures
        subject::normalised_rdns(seq![a]) == subject::normalised_rdns(seq![b]),
{
    let none = Seq::<Seq<char>>::empty();
    subject::lemma_normalised_push(none, a);
    subject::lemma_normalised_push(none, b);
    assert(none.push(a) =~= seq![a]);
    assert(none.push(b) =~= seq![b]);
}

proof fn lemma_white_behind(a: Seq<char>, w: Seq<char>)
    requires
        all_chars(w, |x: char| text::is_white_space(x)),
    ensures
        subject::normalised_rdns(text::split_on(a + w, ',')) == subject::normalised_rdns(
            text::split_on(a, ','),
        ),
    decreases a.len(),
{
    let i = text::first_index(a, ',');
    text::lemma_first_index_bounds(a, ',');
    let s = a + w;
    assert forall|j: int| 0 <= j < w.len() implies w[j] != ',' by {
        assert((|x: char| text::is_white_space(x))(w[j]));
    }
    assert forall|j: int| 0 <= j < i implies s[j] != ',' by {
        assert(s[j] == a[j]);
    }
    if i < a.len() {
        let head = a.take(i);
        let rest = a.skip(i + 1);
        assert(s[i] == ',');
        text::lemma_first_index(s, ',', i);
        assert(s.take(i) =~= head);
        assert(s.skip(i + 1) =~= rest + w);
        lemma_white_behind(rest, w);
        lemma_normalised_concat(seq![head], text::split_on(rest, ','));
        lemma_normalised_concat(seq![head], text::split_on(rest + w, ','));
    } else {
        assert forall|j: int| 0 <= j < s.len() implies s[j] != ',' by {
            if j >= a.len() {
                assert(s[j] == w[j - a.len()]);
            }
        }
        text::lemma_first_index(s, ',', s.len() as int);
        lemma_trimmed_white_behind(a, w);
        lemma_normalised_one(s, a);
    }
}

proof fn lemma_white_before(w: Seq<char>, b: Seq<char>)
    requires
        all_chars(w, |x: char| text::is_white_space(x)),
    ensures
        subject::normalised_rdns(text::split_on(w + b, ',')) == subject::normalised_rdns(
            text::split_on(b, ','),
        ),
{
    let i = text::first_index(b, ',');
    text::lemma_first_index_bounds(b, ',');
    let s = w + b;
    let n = w.len() + i;
    assert forall|j: int| 0 <= j < n implies s[j] != ',' by {
        if j < w.len() {
            assert((|x: char| text::is_white_space(x))(w[j]));
        } else {
            assert(s[j] == b[j - w.len()]);
        }
    }
    if i < b.len() {
        assert(s[n] == b[i]);
    }
    text::lemma_first_index(s, ',', n);
    lemma_trimmed_white_before(w, b.take(i));
    if i < b.len() {
        let rest = b.skip(i + 1);
        assert(s.take(n) =~= w + b.take(i));
        assert(s.skip(n + 1) =~= rest);
        lemma_normalised_one(s.take(n), b.take(i));
        lemma_normalised_concat(seq![b.take(i)], text::split_on(rest, ','));
        lemma_normalised_concat(seq![s.take(n)], text::split_on(rest, ','));
    } else {
        assert(b.take(i) =~= b);
        lemma_normalised_one(s, b);
    }
}

/// White space around the commas of a DN makes no other subject of it.
pub proof fn law_white_space_around_commas_does_not_count(
    a: Seq<char>,
    w: Seq<char>,
    x: Seq<char>,
    b: Seq<char>,
)
    requires
        all_chars(w, |c: char| text::is_white_space(c)),
        all_chars(x, |c: char| text::is_white_space(c)),
    ensures
        subject::normalised_dn((a + w).push(',') + (x + b)) == subject::normalised_dn(
            a.push(',') + b,
        ),
{
    lemma_split_concat(a + w, x + b, ',');
    lemma_split_concat(a, b, ',');
    lemma_normalised_concat(text::split_on(a + w, ','), text::split_on(x + b, ','));
    lemma_normalised_concat(text::split_on(a, ','), text::split_on(b, ','));
    lemma_white_behind(a, w);
    lemma_white_before(x, b);
}

/// White space at the ends of a DN makes no other subject of it.
pub proof fn law_white_space_at_the_ends_does_not_count(
    w: Seq<char>,
    dn: Seq<char>,
    x: Seq<char>,
)
    requires
        all_chars(w, |c: char| text::is_white_space(c)),
        all_chars(x, |c: char| text::is_white_space(c)),
    ensures
        subject::normalised_dn(w + dn + x) == subject::normalised_dn(dn),
{
    lemma_white_behind(w + dn, x);
    lemma_white_before(w, dn);
}

/// A fingerprint subject has 64 characters, each a digit or a letter from `a` to
/// `f`.
pub proof fn law_fingerprint_subject_is_64_lower_case_hex_digits(
    cert: CertView,
    extraction: ExtractionConfig,
)
    requires
        extraction.mode == ExtractionMode::Fingerprint,
    ensures
        subject::subject_of(cert, extraction) matches Ok(s) ==> {
            &&& s.len() == 64
            &&& all_chars(s, |c: char| '0' <= c <= '9' || 'a' <= c <= 'f')
        },
{
    if let Some(fingerprint) = cert.fingerprint_sha256 {
        let low = text::lowercased(fingerprint);
        let p = |c: char| !('A' <= c <= 'Z');
        assert forall|i: int| 0 <= i < low.len() implies p(#[trigger] low[i]) by {}
        let digits = text::hex_digits(low);
        lemma_filter_all(low, |c: char| text::is_hex_digit(c), p);
        assert forall|i: int| 0 <= i < digits.len() implies (|c: char|
            '0' <= c <= '9' || 'a' <= c <= 'f')(#[trigger] digits[i]) by {
            assert(p(digits[i]));
            assert((|c: char| text::is_hex_digit(c))(digits[i]));
        }
    }
}

/// What is kept of a text satisfies what is asked of it, and what held of every
/// character.
proof fn lemma_filter_all(
    s: Seq<char>,
    keep: spec_fn(char) -> bool,
    p: spec_fn(char) -> bool,
)
    requires
        all_chars(s, p),
    ensures
        all_chars(s.filter(keep), p),
        all_chars(s.filter(keep), keep),
    decreases s.len(),
{
    reveal(Seq::filter);
    if s.len() > 0 {
        let start = s.drop_last();
        assert forall|i: int| 0 <= i < start.len() implies p(#[trigger] start[i]) by {
            assert(start[i] == s[i]);
        }
        lemma_filter_all(start, keep, p);
        assert(p(s[s.len() - 1]));
    }
}

/// A character that is no hexadecimal digit makes no other subject of a
/// fingerprint, wherever it stands.
pub proof fn law_fingerprint_separators_do_not_count(a: Seq<char>, c: char, b: Seq<char>)
    requires
        !text::is_hex_digit(c),
    ensures
        subject::fingerprint_subject_of(a.push(c) + b) == subject::fingerprint_subject_of(a + b),
{
    reveal(Seq::filter);
    let keep = |x: char| text::is_hex_digit(x);
    Seq::filter_distributes_over_add(a.push(c), b, keep);
    Seq::filter_distributes_over_add(a, b, keep);
    assert(a.push(c).drop_last() =~= a);
}

/// Lower-casing an ASCII fingerprint changes none of its hexadecimal digits but
/// their case: the digits of its lower-case form are its own digits, lowered.
pub proof fn law_fingerprint_keeps_its_own_digits(f: Seq<char>)
    requires
        is_ascii_chars(f),
    ensures
        text::hex_digits(text::lowercased(f)) == text::ascii_lowercase(text::hex_digits(f)),
        text::hex_digits(text::lowercased(f)).len() == text::hex_digits(f).len(),
{
    lemma_lower_hex_digits(f);
}

/// The subject that an ASCII fingerprint names is its own hexadecimal digits in
/// lower case, with everything else stripped, exactly when there are 64 of them;
/// otherwise the reason tells how many there are.
pub proof fn law_fingerprint_subject_is_its_own_digits(
    cert: CertView,
    extraction: ExtractionConfig,
)
    requires
        extraction.mode == ExtractionMode::Fingerprint,
        cert.fingerprint_sha256 is Some,
        is_ascii_chars(cert.fingerprint_sha256->0),
    ensures
        ({
            let digits = text::hex_digits(cert.fingerprint_sha256->0);
            subject::subject_of(cert, extraction) == (if digits.len() == 64 {
                Ok::<Seq<char>, Seq<char>>(text::ascii_lowercase(digits))
            } else {
                Err::<Seq<char>, Seq<char>>(
                    "fingerprint must be 64 hex chars (sha256); got "@ + text::decimal(
                        digits.len(),
                    ) + " chars"@,
                )
            })
        }),
{
    law_fingerprint_keeps_its_own_digits(cert.fingerprint_sha256->0);
}

/// ASCII fingerprints that differ in nothing but the case of letters and in
/// characters that are no hexadecimal digits name one subject, or fail alike.
pub proof fn law_fingerprint_case_and_separators_do_not_count(
    cert: CertView,
    other: CertView,
    extraction: ExtractionConfig,
)
    requires
        extraction.mode == ExtractionMode::Fingerprint,
        cert.fingerprint_sha256 is Some,
        other.fingerprint_sha256 is Some,
        is_ascii_chars(cert.fingerprint_sha256->0),
        is_ascii_chars(other.fingerprint_sha256->0),
        text::ascii_lowercase(text::hex_digits(cert.fingerprint_sha256->0)) == text::ascii_lowercase(
            text::hex_digits(other.fingerprint_sha256->0),
        ),
    ensures
        subject::subject_of(cert, extraction) == subject::subject_of(other, extraction),
{
    law_fingerprint_keeps_its_own_digits(cert.fingerprint_sha256->0);
    law_fingerprint_keeps_its_own_digits(other.fingerprint_sha256->0);
}

/// Lowering capitals and keeping hexadecimal digits come to the same in either
/// order.
proof fn lemma_lower_hex_digits(s: Seq<char>)
    ensures
        text::hex_digits(text::ascii_lowercase(s)) == text::ascii_lowercase(text::hex_digits(s)),
    decreases s.len(),
{
    reveal(Seq::filter);
    let low = text::ascii_lowercase(s);
    if s.len() == 0 {
        assert(text::hex_digits(low) =~= text::ascii_lowercase(text::hex_digits(s)));
    } else {
        assert(low.drop_last() =~= text::ascii_lowercase(s.drop_last()));
        lemma_lower_hex_digits(s.drop_last());
        assert(text::hex_digits(low) =~= text::ascii_lowercase(text::hex_digits(s)));
    }
}

/// A fingerprint subject, taken for a fingerprint, names itself.
pub proof fn law_fingerprint_subject_names_itself(s: Seq<char>)
    requires
        s.len() == 64,
        all_chars(s, |c: char| '0' <= c <= '9' || 'a' <= c <= 'f'),
    ensures
        subject::fingerprint_subject_of(text::lowercased(s)) == Ok::<Seq<char>, Seq<char>>(s),
{
    let p = |c: char| '0' <= c <= '9' || 'a' <= c <= 'f';
    assert forall|i: int| 0 <= i < s.len() implies '\0' <= #[trigger] s[i] <= '\u{7f}' by {
        assert(p(s[i]));
    }
    assert(is_ascii_chars(s));
    assert forall|i: int| 0 <= i < s.len() implies text::ascii_lowercase(s)[i] == s[i] by {
        assert(p(s[i]));
    }
    assert(text::ascii_lowercase(s) =~= s);
    assert forall|i: int| 0 <= i < s.len() implies (|c: char| text::is_hex_digit(c))(
        #[trigger] s[i],
    ) by {
        assert(p(s[i]));
    }
    lemma_filter_keeps(s, |c: char| text::is_hex_digit(c));
}

proof fn lemma_filter_keeps(s: Seq<char>, keep: spec_fn(char) -> bool)
    requires
        all_chars(s, keep),
    ensures
        s.filter(keep) == s,
    decreases s.len(),
{
    reveal(Seq::filter);
    if s.len() > 0 {
        let start = s.drop_last();
        assert forall|i: int| 0 <= i < start.len() implies keep(#[trigger] start[i]) by {
            assert(start[i] == s[i]);
        }
        lemma_filter_keeps(start, keep);
        assert(keep(s[s.len() - 1]));
        assert(start.push(s.last()) =~= s);
    }
}

/// The first common name of two runs of attributes is the first one's, or else
/// the second one's.
pub proof fn law_first_common_name_wins(a: Seq<char>, b: Seq<char>)
    ensures
        subject::common_name_of(a.push(',') + b) == match subject::common_name_of(a) {
            Some(cn) => Some(cn),
            None => subject::common_name_of(b),
        },
{
    lemma_split_concat(a, b, ',');
    lemma_first_cn_concat(text::split_on(a, ','), text::split_on(b, ','));
}

proof fn lemma_first_cn_concat(a: Seq<Seq<char>>, b: Seq<Seq<char>>)
    ensures
        subject::first_cn(a + b) == match subject::first_cn(a) {
            Some(cn) => Some(cn),
            None => subject::first_cn(b),
        },
    decreases a.len(),
{
    if a.len() == 0 {
        assert(a + b =~= b);
    } else {
        assert((a + b).drop_first() =~= a.drop_first() + b);
        lemma_first_cn_concat(a.drop_first(), b);
    }
}

/// Certificate details name no subject exactly when what the mode needs is
/// missing: a DN with a common name that is not empty, a DN, or a fingerprint
/// with as many hexadecimal digits as a SHA-256.
pub proof fn law_when_details_name_no_subject(cert: CertView, extraction: ExtractionConfig)
    ensures
        subject::subject_of(cert, extraction) is Err <==> match extraction.mode {
            ExtractionMode::SubjectCn => match cert.subject_dn {
                None => true,
                Some(dn) => match subject::common_name_of(dn) {
                    None => true,
                    Some(cn) => cn.len() == 0,
                },
            },
            ExtractionMode::SubjectDn => cert.subject_dn is None,
            ExtractionMode::Fingerprint => match cert.fingerprint_sha256 {
                None => true,
                Some(f) => text::hex_digits(text::lowercased(f)).len() != 64,
            },
        },
{
}

proof fn lemma_lower_trimmed_start(s: Seq<char>)
    ensures
        text::trimmed_start(text::ascii_lowercase(s)) == text::ascii_lowercase(
            text::trimmed_start(s),
        ),
    decreases s.len(),
{
    if s.len() > 0 {
        assert(text::ascii_lowercase(s).drop_first() =~= text::ascii_lowercase(s.drop_first()));
        lemma_lower_trimmed_start(s.drop_first());
    }
}

proof fn lemma_lower_trimmed_end(s: Seq<char>)
    ensures
        text::trimmed_end(text::ascii_lowercase(s)) == text::ascii_lowercase(text::trimmed_end(s)),
    decreases s.len(),
{
    if s.len() > 0 {
        assert(text::ascii_lowercase(s).drop_last() =~= text::ascii_lowercase(s.drop_last()));
        lemma_lower_trimmed_end(s.drop_last());
    }
}

/// Lowering capitals and trimming come to the same in either order.
proof fn lemma_lower_trimmed(s: Seq<char>)
    ensures
        text::trimmed(text::ascii_lowercase(s)) == text::ascii_lowercase(text::trimmed(s)),
{
    lemma_lower_trimmed_start(s);
    lemma_lower_trimmed_end(text::trimmed_start(s));
}

proof fn lemma_lower_first_index(s: Seq<char>, c: char)
    requires
        c == ',' || c == '=',
    ensures
        text::first_index(text::ascii_lowercase(s), c) == text::first_index(s, c),
    decreases s.len(),
{
    if s.len() > 0 {
        assert(text::ascii_lowercase(s).drop_first() =~= text::ascii_lowercase(s.drop_first()));
        lemma_lower_first_index(s.drop_first(), c);
    }
}

/// Texts with their capitals lowered.
pub open spec fn lowered_parts(parts: Seq<Seq<char>>) -> Seq<Seq<char>> {
    parts.map_values(|s: Seq<char>| text::ascii_lowercase(s))
}

proof fn lemma_lower_split(s: Seq<char>)
    ensures
        text::split_on(text::ascii_lowercase(s), ',') == lowered_parts(text::split_on(s, ',')),
    decreases s.len(),
{
    let low = text::ascii_lowercase(s);
    let i = text::first_index(s, ',');
    lemma_lower_first_index(s, ',');
    text::lemma_first_index_bounds(s, ',');
    if i < s.len() {
        let rest = s.skip(i + 1);
        lemma_lower_split(rest);
        assert(low.take(i) =~= text::ascii_lowercase(s.take(i)));
        assert(low.skip(i + 1) =~= text::ascii_lowercase(rest));
        assert(lowered_parts(text::split_on(s, ',')) =~= seq![low.take(i)] + lowered_parts(
            text::split_on(rest, ','),
        ));
    } else {
        assert(lowered_parts(seq![s]) =~= seq![low]);
    }
}

/// An optional text with its capitals lowered.
pub open spec fn lowered_option(o: Option<Seq<char>>) -> Option<Seq<char>> {
    match o {
        Some(s) => Some(text::ascii_lowercase(s)),
        None => None,
    }
}

proof fn lemma_lower_cn_value(rdn: Seq<char>)
    ensures
        subject::cn_value(text::ascii_lowercase(rdn)) == lowered_option(subject::cn_value(rdn)),
{
    let low = text::ascii_lowercase(rdn);
    let i = text::first_index(rdn, '=');
    lemma_lower_first_index(rdn, '=');
    text::lemma_first_index_bounds(rdn, '=');
    if i < rdn.len() {
        let key = rdn.take(i);
        let value = rdn.skip(i + 1);
        assert(low.take(i) =~= text::ascii_lowercase(key));
        assert(low.skip(i + 1) =~= text::ascii_lowercase(value));
        lemma_lower_trimmed(key);
        lemma_lower_trimmed(value);
        let k = text::trimmed(key);
        assert(text::ascii_lowercase(text::ascii_lowercase(k)) =~= text::ascii_lowercase(k));
    }
}

proof fn lemma_lower_first_cn(rdns: Seq<Seq<char>>)
    ensures
        subject::first_cn(lowered_parts(rdns)) == lowered_option(subject::first_cn(rdns)),
    decreases rdns.len(),
{
    if rdns.len() > 0 {
        lemma_lower_trimmed(rdns.first());
        lemma_lower_cn_value(text::trimmed(rdns.first()));
        assert(lowered_parts(rdns).drop_first() =~= lowered_parts(rdns.drop_first()));
        lemma_lower_first_cn(rdns.drop_first());
    }
}

proof fn lemma_cn_all(rdns: Seq<Seq<char>>, p: spec_fn(char) -> bool)
    requires
        forall|k: int| 0 <= k < rdns.len() ==> all_chars(#[trigger] rdns[k], p),
    ensures
        subject::first_cn(rdns) matches Some(cn) ==> all_chars(cn, p),
    decreases rdns.len(),
{
    if rdns.len() > 0 {
        let rdn = text::trimmed(rdns[0]);
        assert(all_chars(rdns[0], p));
        lemma_trimmed_all(rdns[0], p);
        let i = text::first_index(rdn, '=');
        text::lemma_first_index_bounds(rdn, '=');
        if i < rdn.len() {
            let value = rdn.skip(i + 1);
            assert forall|j: int| 0 <= j < value.len() implies p(#[trigger] value[j]) by {
                assert(value[j] == rdn[i + 1 + j]);
            }
            lemma_trimmed_all(value, p);
        }
        let rest = rdns.drop_first();
        assert forall|k: int| 0 <= k < rest.len() implies all_chars(#[trigger] rest[k], p) by {
            assert(rest[k] == rdns[k + 1]);
        }
        lemma_cn_all(rest, p);
    }
}

proof fn lemma_cn_is_ascii(dn: Seq<char>)
    requires
        is_ascii_chars(dn),
    ensures
        subject::common_name_of(dn) matches Some(cn) ==> is_ascii_chars(cn),
{
    let p = |c: char| '\0' <= c <= '\u{7f}';
    assert forall|i: int| 0 <= i < dn.len() implies p(#[trigger] dn[i]) by {}
    lemma_split_all(dn, ',', p);
    lemma_cn_all(text::split_on(dn, ','), p);
    if let Some(cn) = subject::common_name_of(dn) {
        assert forall|i: int| 0 <= i < cn.len() implies '\0' <= #[trigger] cn[i] <= '\u{7f}' by {
            assert(p(cn[i]));
        }
    }
}

/// Unless case counts, ASCII DNs that differ in nothing but the case of letters
/// have one common-name subject.
pub proof fn law_case_of_letters_does_not_count(
    cert: CertView,
    other: CertView,
    extraction: ExtractionConfig,
)
    requires
        extraction.mode == ExtractionMode::SubjectCn,
        !extraction.case_sensitive,
        cert.subject_dn is Some,
        other.subject_dn is Some,
        is_ascii_chars(cert.subject_dn->0),
        is_ascii_chars(other.subject_dn->0),
        text::ascii_lowercase(cert.subject_dn->0) == text::ascii_lowercase(other.subject_dn->0),
    ensures
        subject::subject_of(cert, extraction) == subject::subject_of(other, extraction),
{
    let a = cert.subject_dn->0;
    let b = other.subject_dn->0;
    lemma_lower_split(a);
    lemma_lower_split(b);
    lemma_lower_first_cn(text::split_on(a, ','));
    lemma_lower_first_cn(text::split_on(b, ','));
    lemma_cn_is_ascii(a);
    lemma_cn_is_ascii(b);
    if let Some(x) = subject::common_name_of(a) {
        if let Some(y) = subject::common_name_of(b) {
            assert(text::ascii_lowercase(x).len() == x.len());
            assert(text::ascii_lowercase(y).len() == y.len());
        }
    }
}

/// A common-name subject is not empty, where case counts or the common name is
/// ASCII. Of other common names `subject::extract_subject` says the same.
pub proof fn law_common_name_subject_is_not_empty(
    cert: CertView,
    extraction: ExtractionConfig,
    s: Seq<char>,
)
    requires
        extraction.mode == ExtractionMode::SubjectCn,
        subject::subject_of(cert, extraction) == Ok::<Seq<char>, Seq<char>>(s),
        extraction.case_sensitive || (subject::common_name_of(cert.subject_dn->0) matches Some(cn)
            && is_ascii_chars(cn)),
    ensures
        s.len() > 0,
{
}

/// A common-name subject holds no ASCII capital, unless case counts; where it
/// does, it is the common name as it stands.
pub proof fn law_common_name_subject_is_in_lower_case(cert: CertView, extraction: ExtractionConfig)
    requires
        extraction.mode == ExtractionMode::SubjectCn,
    ensures
        subject::subject_of(cert, extraction) matches Ok(s) ==> if extraction.case_sensitive {
            cert.subject_dn is Some && subject::common_name_of(cert.subject_dn->0) == Some(s)
        } else {
            all_chars(s, |c: char| !('A' <= c <= 'Z'))
        },
{
}

/// What the attributes of two DNs, one behind the other, come to: the normal form of
/// both with a comma between them, or of the one of which something is left. A DN of
/// one attribute comes to that attribute without the white space around it. So no
/// attribute is lost, however many there are.
pub proof fn law_normal_form_of_two_dns(a: Seq<char>, b: Seq<char>)
    ensures
        subject::normalised_dn(a.push(',') + b) == (if subject::normalised_dn(a).len() == 0 {
            subject::normalised_dn(b)
        } else if subject::normalised_dn(b).len() == 0 {
            subject::normalised_dn(a)
        } else {
            subject::normalised_dn(a).push(',') + subject::normalised_dn(b)
        }),
        !a.contains(',') ==> subject::normalised_dn(a) == text::trimmed(a),
{
    let x = subject::normalised_rdns(text::split_on(a, ','));
    let y = subject::normalised_rdns(text::split_on(b, ','));
    lemma_split_concat(a, b, ',');
    lemma_normalised_concat(text::split_on(a, ','), text::split_on(b, ','));
    lemma_normal_form_is_empty(a);
    lemma_normal_form_is_empty(b);
    if x.len() == 0 {
        assert(x + y =~= y);
    } else if y.len() == 0 {
        assert(x + y =~= x);
    } else {
        text_laws::law_join_of_two_lists(x, y, a, ',');
    }
    if !a.contains(',') {
        lemma_normal_form_of_one(a);
    }
}

proof fn lemma_normal_form_of_one(a: Seq<char>)
    requires
        !a.contains(','),
    ensures
        subject::normalised_dn(a) == text::trimmed(a),
{
    text_laws::lemma_lacks(a, ',');
    lemma_split_plain(a, ',');
    let none = Seq::<Seq<char>>::empty();
    lemma_normalised_stay(none);
    subject::lemma_normalised_push(none, a);
    assert(none.push(a) =~= seq![a]);
    assert(none.push(text::trimmed(a)) =~= seq![text::trimmed(a)]);
}

/// The normal form of a DN is empty exactly where no attribute is left.
proof fn lemma_normal_form_is_empty(a: Seq<char>)
    ensures
        subject::normalised_dn(a).len() == 0 <==> subject::normalised_rdns(
            text::split_on(a, ','),
        ).len() == 0,
{
    let rdns = text::split_on(a, ',');
    let x = subject::normalised_rdns(rdns);
    lemma_split_lacks(a, ',');
    lemma_normalised_rdns(rdns);
    if x.len() > 0 {
        assert(x[x.len() - 1].len() > 0);
    }
}

/// An attribute as it stands in a normal form: not empty, without commas and without
/// white space around it.
pub open spec fn is_attribute(a: Seq<char>) -> bool {
    &&& a.len() > 0
    &&& !a.contains(',')
    &&& !text::is_white_space(a.first())
    &&& !text::is_white_space(a.last())
}

/// Normalising loses no attribute and changes no order: attributes with any white
/// space around each and commas between them come to the attributes with commas
/// between them, however many there are.
pub proof fn law_normalising_keeps_every_attribute(
    padded: Seq<Seq<char>>,
    attributes: Seq<Seq<char>>,
)
    requires
        attributes.len() > 0,
        padded.len() == attributes.len(),
        forall|k: int|
            0 <= k < attributes.len() ==> is_attribute(#[trigger] attributes[k]) && is_padded(
                padded[k],
                attributes[k],
            ),
    ensures
        subject::normalised_dn(text::join_with(padded, ',')) == text::join_with(attributes, ','),
        text::join_with(attributes, ',').len() > 0,
    decreases attributes.len(),
{
    let n = attributes.len() - 1;
    let last = attributes[n];
    assert(is_attribute(attributes[n]) && is_padded(padded[n], last));
    lemma_padded(padded[n], last);
    lemma_normal_form_of_one(padded[n]);
    if n > 0 {
        let start = attributes.drop_last();
        let padded_start = padded.drop_last();
        assert forall|k: int| 0 <= k < start.len() implies is_attribute(#[trigger] start[k])
            && is_padded(padded_start[k], start[k]) by {
            assert(start[k] == attributes[k]);
            assert(padded_start[k] == padded[k]);
        }
        law_normalising_keeps_every_attribute(padded_start, start);
        law_normal_form_of_two_dns(text::join_with(padded_start, ','), padded[n]);
    }
}

/// `p` is `a` with white space around it.
pub open spec fn is_padded(p: Seq<char>, a: Seq<char>) -> bool {
    exists|w: Seq<char>, x: Seq<char>|
        text_laws::is_blank(w) && text_laws::is_blank(x) && p == #[trigger] (w + a + x)
}

proof fn lemma_padded(p: Seq<char>, a: Seq<char>)
    requires
        is_attribute(a),
        is_padded(p, a),
    ensures
        text::trimmed(p) == a,
        !p.contains(','),
{
    let (w, x) = choose|w: Seq<char>, x: Seq<char>|
        text_laws::is_blank(w) && text_laws::is_blank(x) && p == #[trigger] (w + a + x);
    text_laws::law_trimming_drops_the_padding(w, a, x);
    let white = |c: char| text::is_white_space(c);
    assert forall|i: int| 0 <= i < p.len() implies p[i] != ',' by {
        if i < w.len() {
            assert(white(w[i]));
            assert(p[i] == w[i]);
        } else if i < w.len() + a.len() {
            assert(p[i] == a[i - w.len()]);
            assert(a.contains(a[i - w.len()]));
        } else {
            assert(white(x[i - w.len() - a.len()]));
            assert(p[i] == x[i - w.len() - a.len()]);
        }
    }
}

/// The parts of a normal form are the parts of the DN that are not white space alone,
/// each trimmed: as many, and in their order.
pub proof fn law_parts_of_a_normal_form(dn: Seq<char>)
    ensures
        ({
            let kept = text::split_on(dn, ',').filter(|part: Seq<char>| !text_laws::is_blank(part));
            if kept.len() == 0 {
                subject::normalised_dn(dn).len() == 0
            } else {
                text::split_on(subject::normalised_dn(dn), ',') == kept.map_values(
                    |part: Seq<char>| text::trimmed(part),
                )
            }
        }),
{
    let parts = text::split_on(dn, ',');
    lemma_kept_parts(parts);
    lemma_split_lacks(dn, ',');
    lemma_normalised_rdns(parts);
    let rdns = subject::normalised_rdns(parts);
    lemma_normal_form_is_empty(dn);
    if rdns.len() > 0 {
        assert forall|k: int| 0 <= k < rdns.len() implies all_chars(
            #[trigger] rdns[k],
            |x: char| x != ',',
        ) by {}
        lemma_split_join(rdns, ',');
    }
}

proof fn lemma_kept_parts(parts: Seq<Seq<char>>)
    ensures
        subject::normalised_rdns(parts) == parts.filter(
            |part: Seq<char>| !text_laws::is_blank(part),
        ).map_values(|part: Seq<char>| text::trimmed(part)),
    decreases parts.len(),
{
    reveal(Seq::filter);
    let keep = |part: Seq<char>| !text_laws::is_blank(part);
    let trim = |part: Seq<char>| text::trimmed(part);
    if parts.len() == 0 {
        lemma_normalised_stay(parts);
        assert(parts.filter(keep).map_values(trim) =~= parts);
    } else {
        let start = parts.drop_last();
        let last = parts.last();
        lemma_kept_parts(start);
        subject::lemma_normalised_push(start, last);
        assert(start.push(last) =~= parts);
        text_laws::law_trimming_leaves_nothing_of_white_space_alone(last);
        if keep(last) {
            assert(start.filter(keep).push(last).map_values(trim) =~= start.filter(keep).map_values(
                trim,
            ).push(text::trimmed(last)));
        }
    }
}

/// Of one attribute `key=value` the common name is the value if the key is `CN` in
/// whatever case, and there is none if the key is another. White space around either
/// does not count. What holds no `=` is no common name.
pub proof fn law_common_name_of_one_attribute(key: Seq<char>, value: Seq<char>)
    requires
        !key.contains('='),
        !key.contains(','),
        !value.contains(','),
    ensures
        subject::common_name_of(key.push('=') + value) == (if text::ascii_lowercase(
            text::trimmed(key),
        ) == seq!['c', 'n'] {
            Some(text::trimmed(value))
        } else {
            None
        }),
        subject::common_name_of(key) is None,
{
    let s = key.push('=') + value;
    lemma_cn_letters();
    assert forall|i: int| 0 <= i < s.len() implies s[i] != ',' by {
        if i < key.len() {
            assert(s[i] == key[i]);
            assert(key.contains(key[i]));
        } else if i > key.len() {
            assert(s[i] == value[i - key.len() - 1]);
            assert(value.contains(value[i - key.len() - 1]));
        }
    }
    lemma_cn_of_one_part(s);
    lemma_cn_of_one_part(key);
    assert forall|i: int| 0 <= i < key.len() implies key[i] != '=' by {
        assert(key.contains(key[i]));
    }
    lemma_cn_value_of_trimmed(key, value);
    let t = text::trimmed(key);
    lemma_trimmed_all(key, |x: char| x != '=');
    assert forall|i: int| 0 <= i < t.len() implies t[i] != '=' by {
        assert((|x: char| x != '=')(t[i]));
    }
    text::lemma_first_index(t, '=', t.len() as int);
}

proof fn lemma_cn_letters()
    ensures
        text::ascii_lowercase("CN"@) == seq!['c', 'n'],
{
    reveal_strlit("CN");
    assert(text::ascii_lowercase("CN"@) =~= seq!['c', 'n']);
}

proof fn lemma_cn_of_one_part(s: Seq<char>)
    requires
        !s.contains(','),
    ensures
        subject::common_name_of(s) == subject::cn_value(text::trimmed(s)),
{
    text_laws::lemma_lacks(s, ',');
    lemma_split_plain(s, ',');
    let parts = seq![s];
    assert(parts.first() == s);
    assert(parts.drop_first().len() == 0);
    assert(subject::first_cn(parts.drop_first()) is None);
}

/// Trimming an attribute first makes no other common name of it.
proof fn lemma_cn_value_of_trimmed(key: Seq<char>, value: Seq<char>)
    requires
        forall|i: int| 0 <= i < key.len() ==> key[i] != '=',
    ensures
        subject::cn_value(text::trimmed(key.push('=') + value)) == (if text::ascii_lowercase(
            text::trimmed(key),
        ) == text::ascii_lowercase("CN"@) {
            Some(text::trimmed(value))
        } else {
            None
        }),
{
    let k = text::trimmed_start(key);
    let v = text::trimmed_end(value);
    lemma_trim_around_equals(key, value);
    let t = k.push('=') + v;
    lemma_trimmed_start_all(key, |x: char| x != '=');
    assert forall|j: int| 0 <= j < k.len() implies t[j] != '=' by {
        assert((|x: char| x != '=')(k[j]));
        assert(t[j] == k[j]);
    }
    assert(t[k.len() as int] == '=');
    text::lemma_first_index(t, '=', k.len() as int);
    assert(t.take(k.len() as int) =~= k);
    assert(t.skip(k.len() as int + 1) =~= v);
    lemma_trimmed_start_twice(key);
    lemma_trimmed_after_end(value);
}

proof fn lemma_trim_around_equals(key: Seq<char>, value: Seq<char>)
    ensures
        text::trimmed(key.push('=') + value) == text::trimmed_start(key).push('=')
            + text::trimmed_end(value),
    decreases key.len() + value.len(),
{
    let s = key.push('=') + value;
    if key.len() > 0 && text::is_white_space(key.first()) {
        lemma_trim_around_equals(key.drop_first(), value);
        assert(s.drop_first() =~= key.drop_first().push('=') + value);
    } else {
        assert(text::trimmed_start(s) == s) by {
            if key.len() > 0 {
                assert(s.first() == key.first());
            } else {
                assert(s.first() == '=');
            }
        }
        assert(text::trimmed_start(key) == key);
        lemma_trim_end_behind_equals(key, value);
    }
}

proof fn lemma_trim_end_behind_equals(key: Seq<char>, value: Seq<char>)
    ensures
        text::trimmed_end(key.push('=') + value) == key.push('=') + text::trimmed_end(value),
    decreases value.len(),
{
    let s = key.push('=') + value;
    if value.len() > 0 && text::is_white_space(value.last()) {
        lemma_trim_end_behind_equals(key, value.drop_last());
        assert(s.drop_last() =~= key.push('=') + value.drop_last());
        assert(s.last() == value.last());
    } else if value.len() > 0 {
        assert(s.last() == value.last());
    } else {
        assert(s.last() == '=');
    }
}

proof fn lemma_trimmed_start_twice(s: Seq<char>)
    ensures
        text::trimmed_start(text::trimmed_start(s)) == text::trimmed_start(s),
    decreases s.len(),
{
    if s.len() > 0 && text::is_white_space(s.first()) {
        lemma_trimmed_start_twice(s.drop_first());
    }
}

proof fn lemma_trimmed_after_end(s: Seq<char>)
    ensures
        text::trimmed(text::trimmed_end(s)) == text::trimmed(s),
    decreases s.len(),
{
    if s.len() > 0 && text::is_white_space(s.last()) {
        lemma_trimmed_after_end(s.drop_last());
        lemma_trimmed_push_white(s.drop_last(), s.last());
        assert(s.drop_last().push(s.last()) =~= s);
    }
}

/// Whether a key is `CN`, in whatever case.
pub open spec fn is_cn_key(key: Seq<char>) -> bool {
    &&& key.len() == 2
    &&& key[0] == 'c' || key[0] == 'C'
    &&& key[1] == 'n' || key[1] == 'N'
}

/// A DN of attributes `key=value` with commas between them.
pub open spec fn written_dn(attributes: Seq<(Seq<char>, Seq<char>)>) -> Seq<char> {
    text::join_with(
        attributes.map_values(|a: (Seq<char>, Seq<char>)| a.0.push('=') + a.1),
        ',',
    )
}

/// An attribute that a DN can hold as it stands: a key without `=`, no comma, and no
/// white space around the key or the value.
pub open spec fn is_dn_attribute(a: (Seq<char>, Seq<char>)) -> bool {
    &&& !a.0.contains('=')
    &&& !a.0.contains(',')
    &&& !a.1.contains(',')
    &&& text::trimmed(a.0) == a.0
    &&& text::trimmed(a.1) == a.1
}

/// The common name of a DN is the value of its first attribute whose key is `CN`; an
/// attribute with another key gives none, and a DN without such a key has none.
pub proof fn law_common_name_of_a_written_dn(attributes: Seq<(Seq<char>, Seq<char>)>, i: int)
    requires
        attributes.len() > 0,
        0 <= i <= attributes.len(),
        forall|j: int| 0 <= j < attributes.len() ==> is_dn_attribute(#[trigger] attributes[j]),
        forall|j: int| 0 <= j < i ==> !is_cn_key((#[trigger] attributes[j]).0),
        i < attributes.len() ==> is_cn_key(attributes[i].0),
    ensures
        subject::common_name_of(written_dn(attributes)) == (if i < attributes.len() {
            Some(attributes[i].1)
        } else {
            None
        }),
    decreases attributes.len(),
{
    let write = |a: (Seq<char>, Seq<char>)| a.0.push('=') + a.1;
    let (k, v) = attributes[0];
    assert(is_dn_attribute(attributes[0]));
    law_common_name_of_one_attribute(k, v);
    assert(is_cn_key(k) <==> text::ascii_lowercase(k) == seq!['c', 'n']) by {
        let low = text::ascii_lowercase(k);
        if is_cn_key(k) {
            assert(low =~= seq!['c', 'n']);
        }
        if low == seq!['c', 'n'] {
            assert(low.len() == k.len());
            assert(low[0] == 'c' && low[1] == 'n');
            assert(low[0] == text::ascii_lower(k[0]));
            assert(low[1] == text::ascii_lower(k[1]));
        }
    }
    let written = attributes.map_values(write);
    if attributes.len() == 1 {
        assert(written =~= seq![k.push('=') + v]);
        if i == 0 {
        } else {
            assert(!is_cn_key(attributes[0].0));
        }
    } else {
        let rest = attributes.drop_first();
        assert(written =~= seq![k.push('=') + v] + rest.map_values(write));
        text_laws::law_join_of_two_lists(
            seq![k.push('=') + v],
            rest.map_values(write),
            k.push('=') + v,
            ',',
        );
        law_first_common_name_wins(k.push('=') + v, written_dn(rest));
        if i > 0 {
            assert(!is_cn_key(attributes[0].0));
            assert forall|j: int| 0 <= j < rest.len() implies is_dn_attribute(#[trigger] rest[j]) by {
                assert(rest[j] == attributes[j + 1]);
            }
            assert forall|j: int| 0 <= j < i - 1 implies !is_cn_key((#[trigger] rest[j]).0) by {
                assert(rest[j] == attributes[j + 1]);
            }
            law_common_name_of_a_written_dn(rest, i - 1);
        }
    }
}

/// What names the subject in each mode: the common name, as it stands or in lower
/// case; the normal form of the whole DN; or the hexadecimal digits of the
/// fingerprint. Where that is missing, the reason says what.
pub proof fn law_each_mode_names_its_subject(
    cert: CertView,
    extraction: ExtractionConfig,
    dn: Seq<char>,
    cn: Seq<char>,
    fingerprint: Seq<char>,
)
    ensures
        ({
            let named = subject::subject_of(cert, extraction);
            let has_dn = cert.subject_dn == Some(dn);
            let digits = text::hex_digits(text::lowercased(fingerprint));
            &&& extraction.mode == ExtractionMode::SubjectDn && has_dn ==> named == Ok::<
                Seq<char>,
                Seq<char>,
            >(subject::normalised_dn(dn))
            &&& extraction.mode != ExtractionMode::Fingerprint && cert.subject_dn is None
                ==> named == Err::<Seq<char>, Seq<char>>("no subject_dn in cert metadata"@)
            &&& extraction.mode == ExtractionMode::SubjectCn && has_dn && subject::common_name_of(
                dn,
            ) is None ==> named == Err::<Seq<char>, Seq<char>>("no CN= in subject_dn"@)
            &&& extraction.mode == ExtractionMode::SubjectCn && has_dn && subject::common_name_of(
                dn,
            ) == Some(cn) ==> named == (if cn.len() == 0 {
                Err::<Seq<char>, Seq<char>>("subject CN extraction failed: empty CN"@)
            } else if extraction.case_sensitive {
                Ok::<Seq<char>, Seq<char>>(cn)
            } else {
                Ok::<Seq<char>, Seq<char>>(text::lowercased(cn))
            })
            &&& extraction.mode == ExtractionMode::Fingerprint && cert.fingerprint_sha256 is None
                ==> named == Err::<Seq<char>, Seq<char>>("no fingerprint in cert metadata"@)
            &&& extraction.mode == ExtractionMode::Fingerprint && cert.fingerprint_sha256 == Some(
                fingerprint,
            ) ==> named == (if digits.len() == 64 {
                Ok::<Seq<char>, Seq<char>>(digits)
            } else {
                Err::<Seq<char>, Seq<char>>(
                    "fingerprint must be 64 hex chars (sha256); got "@ + text::decimal(
                        digits.len(),
                    ) + " chars"@,
                )
            })
        }),
{
}

/// A subject rests on nothing but what its mode needs: on the DN alone where it is
/// made of the DN, on the fingerprint alone where it is made of that, never on the
/// kind of source, and on `case_sensitive` only where it is a common name.
pub proof fn law_subject_rests_on_what_its_mode_needs(
    cert: CertView,
    other: CertView,
    extraction: ExtractionConfig,
    other_extraction: ExtractionConfig,
)
    requires
        extraction.mode == other_extraction.mode,
        extraction.mode == ExtractionMode::SubjectCn ==> extraction.case_sensitive
            == other_extraction.case_sensitive,
        extraction.mode != ExtractionMode::Fingerprint ==> cert.subject_dn == other.subject_dn,
        extraction.mode == ExtractionMode::Fingerprint ==> cert.fingerprint_sha256
            == other.fingerprint_sha256,
    ensures
        subject::subject_of(cert, extraction) == subject::subject_of(other, other_extraction),
{
}

} // verus!
