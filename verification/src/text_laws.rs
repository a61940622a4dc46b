//! What holds of every text.
use crate::subject_laws;
use crate::text;
use vstd::prelude::*;
use vstd::utf8::*;

verus! {

/// Text that is white space alone.
pub open spec fn is_blank(s: Seq<char>) -> bool {
    subject_laws::all_chars(s, |c: char| text::is_white_space(c))
}

/// Trimming drops the white space before and behind a text, all of it and nothing
/// else: where the text itself has none at either end, the text is what is left.
pub proof fn law_trimming_drops_the_padding(w: Seq<char>, s: Seq<char>, x: Seq<char>)
    requires
        is_blank(w),
        is_blank(x),
        s.len() > 0 ==> !text::is_white_space(s.first()) && !text::is_white_space(s.last()),
    ensures
        text::trimmed(w + s + x) == s,
{
    subject_laws::lemma_trimmed_white_behind(w + s, x);
    subject_laws::lemma_trimmed_white_before(w, s);
    text::lemma_trimmed_ends(s);
}

/// Trimming leaves nothing exactly of a text that is white space alone.
pub proof fn law_trimming_leaves_nothing_of_white_space_alone(s: Seq<char>)
    ensures
        text::trimmed(s).len() == 0 <==> is_blank(s),
{
    let none = Seq::<char>::empty();
    if is_blank(s) {
        law_trimming_drops_the_padding(s, none, none);
        assert(s + none + none =~= s);
    } else {
        let white = |c: char| text::is_white_space(c);
        let i = choose|i: int| 0 <= i < s.len() && !white(#[trigger] s[i]);
        lemma_trimmed_start_keeps(s, i);
        let t = text::trimmed_start(s);
        let j = choose|j: int| 0 <= j < t.len() && !text::is_white_space(#[trigger] t[j]);
        lemma_trimmed_end_keeps(t, j);
    }
}

proof fn lemma_trimmed_start_keeps(s: Seq<char>, i: int)
    requires
        0 <= i < s.len(),
        !text::is_white_space(s[i]),
    ensures
        exists|j: int|
            0 <= j < text::trimmed_start(s).len() && !text::is_white_space(
                #[trigger] text::trimmed_start(s)[j],
            ),
    decreases s.len(),
{
    if text::is_white_space(s.first()) {
        assert(s.drop_first()[i - 1] == s[i]);
        lemma_trimmed_start_keeps(s.drop_first(), i - 1);
        let t = text::trimmed_start(s.drop_first());
        assert(text::trimmed_start(s) == t);
        let j = choose|j: int| 0 <= j < t.len() && !text::is_white_space(#[trigger] t[j]);
        assert(!text::is_white_space(text::trimmed_start(s)[j]));
    } else {
        assert(text::trimmed_start(s)[i] == s[i]);
    }
}

proof fn lemma_trimmed_end_keeps(s: Seq<char>, i: int)
    requires
        0 <= i < s.len(),
        !text::is_white_space(s[i]),
    ensures
        text::trimmed_end(s).len() > 0,
    decreases s.len(),
{
    if text::is_white_space(s.last()) {
        assert(s.drop_last()[i] == s[i]);
        lemma_trimmed_end_keeps(s.drop_last(), i);
    }
}

/// Text without the separator is one part, and a separator between two texts adds
/// the parts of the one to the parts of the other.
pub proof fn law_parts_of_two_texts(a: Seq<char>, b: Seq<char>, c: char)
    ensures
        text::split_on(a.push(c) + b, c) == text::split_on(a, c) + text::split_on(b, c),
        !a.contains(c) ==> text::split_on(a, c) == seq![a],
{
    subject_laws::lemma_split_concat(a, b, c);
    if !a.contains(c) {
        lemma_lacks(a, c);
        subject_laws::lemma_split_plain(a, c);
    }
}

/// A text without `c` has no character that is `c`.
pub proof fn lemma_lacks(a: Seq<char>, c: char)
    requires
        !a.contains(c),
    ensures
        subject_laws::all_chars(a, |x: char| x != c),
{
    assert forall|i: int| 0 <= i < a.len() implies (|x: char| x != c)(#[trigger] a[i]) by {
        assert(a.contains(a[i]));
    }
}

/// Two lists of parts, joined together, are joined with the separator between them;
/// one part stays as it is, and no part at all is no text.
pub proof fn law_join_of_two_lists(a: Seq<Seq<char>>, b: Seq<Seq<char>>, part: Seq<char>, c: char)
    requires
        a.len() > 0,
        b.len() > 0,
    ensures
        text::join_with(a + b, c) == text::join_with(a, c).push(c) + text::join_with(b, c),
        text::join_with(seq![part], c) == part,
        text::join_with(Seq::empty(), c) == Seq::<char>::empty(),
    decreases b.len(),
{
    if b.len() == 1 {
        assert((a + b).drop_last() =~= a);
    } else {
        let start = b.drop_last();
        law_join_of_two_lists(a, start, part, c);
        assert((a + b).drop_last() =~= a + start);
        let head = text::join_with(a, c).push(c);
        assert((head + text::join_with(start, c)).push(c) + b.last() =~= head + (text::join_with(
            start,
            c,
        ).push(c) + b.last()));
    }
}

/// Splitting loses nothing and cuts at every separator: the parts joined again are
/// the text, and no part holds the separator.
pub proof fn law_parts_join_to_the_text(s: Seq<char>, c: char)
    ensures
        text::join_with(text::split_on(s, c), c) == s,
        text::split_on(s, c).len() > 0,
        forall|k: int|
            0 <= k < text::split_on(s, c).len() ==> !(#[trigger] text::split_on(s, c)[k]).contains(
                c,
            ),
    decreases s.len(),
{
    subject_laws::lemma_split_lacks(s, c);
    let parts = text::split_on(s, c);
    assert forall|k: int| 0 <= k < parts.len() implies !(#[trigger] parts[k]).contains(c) by {
        let p = parts[k];
        assert(subject_laws::all_chars(parts[k], |x: char| x != c));
        assert forall|i: int| 0 <= i < p.len() implies p[i] != c by {
            assert((|x: char| x != c)(p[i]));
        }
    }
    let i = text::first_index(s, c);
    text::lemma_first_index_bounds(s, c);
    if i < s.len() {
        let rest = s.skip(i + 1);
        law_parts_join_to_the_text(rest, c);
        law_join_of_two_lists(seq![s.take(i)], text::split_on(rest, c), s.take(i), c);
        assert(s.take(i).push(c) + rest =~= s);
    }
}

/// The hexadecimal digits of two texts are those of the one and then those of the
/// other; of one character they are that character if it is `0` to `9`, `a` to `f`
/// or `A` to `F`, and none if it is not.
pub proof fn law_hex_digits_of_two_texts(a: Seq<char>, b: Seq<char>, c: char)
    ensures
        text::hex_digits(a + b) == text::hex_digits(a) + text::hex_digits(b),
        text::hex_digits(seq![c]) == (if ('0' <= c && c <= '9') || ('a' <= c && c <= 'f') || (
        'A' <= c && c <= 'F') {
            seq![c]
        } else {
            Seq::empty()
        }),
{
    let keep = |x: char| text::is_hex_digit(x);
    Seq::filter_distributes_over_add(a, b, keep);
    reveal(Seq::filter);
    assert(seq![c].drop_last() =~= Seq::<char>::empty());
    assert(Seq::<char>::empty().filter(keep) =~= Seq::<char>::empty());
    if text::is_hex_digit(c) {
        assert(Seq::<char>::empty().push(c) =~= seq![c]);
    }
}

/// The number that decimal digits stand for.
pub open spec fn number_of(digits: Seq<char>) -> int
    decreases digits.len(),
{
    if digits.len() == 0 {
        0
    } else {
        10 * number_of(digits.drop_last()) + (digits.last() as int - '0' as int)
    }
}

/// A number in decimal is made of digits, starts with no needless zero, and stands
/// for the number.
pub proof fn law_decimal_stands_for_the_number(n: nat)
    ensures
        number_of(text::decimal(n)) == n,
        text::decimal(n).len() > 0,
        forall|i: int|
            0 <= i < text::decimal(n).len() ==> '0' <= #[trigger] text::decimal(n)[i] <= '9',
        n > 0 ==> text::decimal(n)[0] != '0',
        n == 0 ==> text::decimal(n) == seq!['0'],
    decreases n,
{
    reveal_with_fuel(number_of, 2);
    if n >= 10 {
        law_decimal_stands_for_the_number(n / 10);
        let head = text::decimal(n / 10);
        assert(text::decimal(n).drop_last() =~= head);
    } else {
        assert(text::decimal(n).drop_last() =~= Seq::<char>::empty());
    }
}

/// Lowering ASCII capitals changes these alone, and each to the letter that is
/// thirty-two places on.
pub proof fn law_lowering_changes_ascii_capitals_alone(s: Seq<char>, i: int)
    requires
        0 <= i < s.len(),
    ensures
        text::ascii_lowercase(s).len() == s.len(),
        'A' <= s[i] <= 'Z' ==> text::ascii_lowercase(s)[i] as int == s[i] as int + 32,
        !('A' <= s[i] <= 'Z') ==> text::ascii_lowercase(s)[i] == s[i],
{
}

/// The lower-case form of an ASCII text is the text with its capitals lowered; that
/// of another is its Unicode lower-case form, character by character, in which no
/// ASCII capital is left.
pub proof fn law_lower_case_form(s: Seq<char>, i: int)
    ensures
        is_ascii_chars(s) ==> text::lowercased(s) == text::ascii_lowercase(s),
        !is_ascii_chars(s) ==> text::lowercased(s).len() == text::unicode_lowercase(s).len(),
        !is_ascii_chars(s) && 0 <= i < text::unicode_lowercase(s).len() && !('A'
            <= text::unicode_lowercase(s)[i] <= 'Z') ==> text::lowercased(s)[i]
            == text::unicode_lowercase(s)[i],
{
}

} // verus!
