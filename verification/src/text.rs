//! Text as sequences of characters: trimming, letter case, splitting, joining.
use vstd::prelude::*;
use vstd::utf8::*;

verus! {

/// What an optional value stands for.
pub open spec fn view_option<T: View>(o: Option<T>) -> Option<T::V> {
    match o {
        Some(t) => Some(t@),
        None => None,
    }
}

/// The characters with the Unicode property `White_Space`.
pub open spec fn is_white_space(c: char) -> bool {
    ||| '\u{9}' <= c <= '\u{d}'
    ||| c == '\u{20}'
    ||| c == '\u{85}'
    ||| c == '\u{a0}'
    ||| c == '\u{1680}'
    ||| '\u{2000}' <= c <= '\u{200a}'
    ||| '\u{2028}' <= c <= '\u{2029}'
    ||| c == '\u{202f}'
    ||| c == '\u{205f}'
    ||| c == '\u{3000}'
}

/// `s` without its leading white space.
pub open spec fn trimmed_start(s: Seq<char>) -> Seq<char>
    decreases s.len(),
{
    if s.len() > 0 && is_white_space(s.first()) {
        trimmed_start(s.drop_first())
    } else {
        s
    }
}

/// `s` without its trailing white space.
pub open spec fn trimmed_end(s: Seq<char>) -> Seq<char>
    decreases s.len(),
{
    if s.len() > 0 && is_white_space(s.last()) {
        trimmed_end(s.drop_last())
    } else {
        s
    }
}

/// `s` without white space at either end.
pub open spec fn trimmed(s: Seq<char>) -> Seq<char> {
    trimmed_end(trimmed_start(s))
}

/// Trimming leaves no more than there was.
pub proof fn lemma_trimmed_len(s: Seq<char>)
    ensures
        trimmed_start(s).len() <= s.len(),
        trimmed_end(s).len() <= s.len(),
    decreases s.len(),
{
    if s.len() > 0 {
        lemma_trimmed_len(s.drop_first());
        lemma_trimmed_len(s.drop_last());
    }
}

/// Text that is trimmed has no white space at either end, and the other way
/// round.
pub proof fn lemma_trimmed_ends(s: Seq<char>)
    ensures
        trimmed(s) == s <==> (s.len() == 0 || (!is_white_space(s.first()) && !is_white_space(
            s.last(),
        ))),
{
    lemma_trimmed_len(s);
    lemma_trimmed_len(trimmed_start(s));
    if s.len() > 0 {
        lemma_trimmed_len(s.drop_first());
        lemma_trimmed_len(s.drop_last());
        lemma_trimmed_len(trimmed_start(s.drop_first()));
    }
}

/// `str::trim` drops every leading and trailing character that has the Unicode
/// property `White_Space`, and nothing else.
pub assume_specification[ str::trim ](s: &str) -> (r: &str)
    ensures
        r@ == trimmed(s@),
;

/// The lower-case letter of an ASCII capital; any other character as it is.
pub open spec fn ascii_lower(c: char) -> char {
    if 'A' <= c <= 'Z' {
        ((c as int) + 32) as char
    } else {
        c
    }
}

/// `s` with its ASCII capitals lowered.
pub open spec fn ascii_lowercase(s: Seq<char>) -> Seq<char> {
    s.map_values(|c: char| ascii_lower(c))
}

/// `str::eq_ignore_ascii_case` tells whether two strings are the same once the
/// ASCII capitals of both are lowered.
pub assume_specification[ str::eq_ignore_ascii_case ](s: &str, other: &str) -> (r: bool)
    ensures
        r == (ascii_lowercase(s@) == ascii_lowercase(other@)),
;

/// What `str::to_lowercase` makes of a string: its Unicode lower-case form.
pub uninterp spec fn unicode_lowercase(s: Seq<char>) -> Seq<char>;

/// `str::to_lowercase` gives the Unicode lower-case form of a string. Of an
/// ASCII string that is the string with its capitals lowered. The form of any
/// string holds no ASCII capital. It is not empty unless the string is: each
/// character is lowered to one or more. Which characters stand for a character
/// outside ASCII is left to the name.
pub assume_specification[ str::to_lowercase ](s: &str) -> (r: String)
    ensures
        r@ == unicode_lowercase(s@),
        is_ascii_chars(s@) ==> r@ == ascii_lowercase(s@),
        forall|i: int| 0 <= i < r@.len() ==> !('A' <= #[trigger] r@[i] <= 'Z'),
        s@.len() > 0 ==> r@.len() > 0,
;

/// `core::str::Utf8Error`: why bytes are not UTF-8. Nothing reads it.
#[verifier::external_type_specification]
#[verifier::external_body]
pub struct ExUtf8Error(core::str::Utf8Error);

/// `core::str::from_utf8` succeeds on well-formed UTF-8 alone, and then gives
/// the characters that the bytes encode.
pub assume_specification[ core::str::from_utf8 ](v: &[u8]) -> (r: Result<
    &str,
    core::str::Utf8Error,
>)
    ensures
        r is Ok <==> valid_utf8(v@),
        r matches Ok(s) ==> s@ == decode_utf8(v@),
;

/// `String::push` appends one character.
pub assume_specification[ String::push ](s: &mut String, c: char)
    ensures
        final(s)@ == old(s)@.push(c),
;

/// The lower-case form of `s`. Lowering ASCII capitals once more changes nothing
/// in a Unicode lower-case form, which holds none.
pub open spec fn lowercased(s: Seq<char>) -> Seq<char> {
    if is_ascii_chars(s) {
        ascii_lowercase(s)
    } else {
        ascii_lowercase(unicode_lowercase(s))
    }
}

/// Lower-cases `s`.
pub fn lowercase(s: &str) -> (r: String)
    ensures
        r@ == lowercased(s@),
        r@ == unicode_lowercase(s@),
        s@.len() > 0 ==> r@.len() > 0,
{
    let r = s.to_lowercase();
    assert(ascii_lowercase(r@) =~= r@);
    r
}

/// Tells whether two strings hold the same characters.
pub fn same_text(a: &str, b: &str) -> (r: bool)
    ensures
        r == (a@ == b@),
{
    let x = a.as_bytes();
    let y = b.as_bytes();
    if x.len() != y.len() {
        return false;
    }
    let mut i: usize = 0;
    while i < x.len()
        invariant
            x@ == encode_utf8(a@),
            y@ == encode_utf8(b@),
            x@.len() == y@.len(),
            i <= x@.len(),
            forall|j: int| 0 <= j < i ==> x@[j] == y@[j],
        decreases x@.len() - i,
    {
        if x[i] != y[i] {
            return false;
        }
        i += 1;
    }
    proof {
        assert(x@ =~= y@);
        encode_utf8_decode_utf8(a@);
        encode_utf8_decode_utf8(b@);
    }
    true
}

/// The characters of `s`, one by one.
pub fn chars_of(s: &str) -> (v: Vec<char>)
    ensures
        v@ == s@,
{
    let mut v: Vec<char> = Vec::new();
    for c in it: s.chars()
        invariant
            it.seq() == s@,
            v@ == s@.take(it.index()),
    {
        v.push(c);
    }
    assert(s@.take(s@.len() as int) =~= s@);
    v
}

/// Where `c` first stands in `s`, or the length of `s` where it does not.
pub open spec fn first_index<T>(s: Seq<T>, c: T) -> int
    decreases s.len(),
{
    if s.len() == 0 || s.first() == c {
        0
    } else {
        1 + first_index(s.drop_first(), c)
    }
}

/// The parts of `s` between the separators `c`: one more than there are
/// separators.
pub open spec fn split_on(s: Seq<char>, c: char) -> Seq<Seq<char>>
    decreases s.len(),
{
    proof {
        lemma_first_index_bounds(s, c);
    }
    let i = first_index(s, c);
    if i < s.len() {
        seq![s.take(i)] + split_on(s.skip(i + 1), c)
    } else {
        seq![s]
    }
}

/// The parts one after the other, with `c` between them.
pub open spec fn join_with(parts: Seq<Seq<char>>, c: char) -> Seq<char>
    decreases parts.len(),
{
    if parts.len() == 0 {
        Seq::empty()
    } else if parts.len() == 1 {
        parts[0]
    } else {
        join_with(parts.drop_last(), c).push(c) + parts.last()
    }
}

/// Where nothing before `k` is `c`, and `k` is the end or holds `c`, `k`
/// is the first index.
pub proof fn lemma_first_index<T>(s: Seq<T>, c: T, k: int)
    requires
        0 <= k <= s.len(),
        forall|j: int| 0 <= j < k ==> s[j] != c,
        k < s.len() ==> s[k] == c,
    ensures
        first_index(s, c) == k,
    decreases s.len(),
{
    if k > 0 {
        lemma_first_index(s.drop_first(), c, k - 1);
    }
}

/// The first index lies in the string or at its end, holds `c` in the first
/// case, and nothing before it is `c`.
pub proof fn lemma_first_index_bounds<T>(s: Seq<T>, c: T)
    ensures
        0 <= first_index(s, c) <= s.len(),
        first_index(s, c) < s.len() ==> s[first_index(s, c)] == c,
        forall|j: int| 0 <= j < first_index(s, c) ==> s[j] != c,
    decreases s.len(),
{
    if s.len() != 0 && s.first() != c {
        let rest = s.drop_first();
        lemma_first_index_bounds(rest, c);
        assert forall|j: int| 0 <= j < first_index(s, c) implies s[j] != c by {
            if j > 0 {
                assert(rest[j - 1] == s[j]);
            }
        }
    }
}

/// Finds where `c` first stands in `v`.
pub fn find_char(v: &Vec<char>, c: char) -> (i: usize)
    ensures
        i == first_index(v@, c),
        i <= v@.len(),
{
    let mut i: usize = 0;
    while i < v.len() && v[i] != c
        invariant
            i <= v@.len(),
            forall|j: int| 0 <= j < i ==> v@[j] != c,
        decreases v@.len() - i,
    {
        i += 1;
    }
    proof {
        lemma_first_index(v@, c, i as int);
    }
    i
}

/// Splits `s` at every `c`.
pub fn split_str<'a>(s: &'a str, c: char) -> (parts: Vec<&'a str>)
    ensures
        parts.deep_view() == split_on(s@, c),
{
    let v = chars_of(s);
    let mut parts: Vec<&'a str> = Vec::new();
    let mut start: usize = 0;
    let mut i: usize = 0;
    assert(s@.skip(0) =~= s@);
    assert(parts.deep_view() + split_on(s@, c) =~= split_on(s@, c));
    while i < v.len()
        invariant
            v@ == s@,
            start <= i <= v@.len(),
            forall|j: int| start <= j < i ==> v@[j] != c,
            parts.deep_view() + split_on(s@.skip(start as int), c) == split_on(s@, c),
        decreases v@.len() - i,
    {
        if v[i] == c {
            let ghost before = parts.deep_view();
            let ghost rest = s@.skip(start as int);
            parts.push(s.substring_char(start, i));
            proof {
                lemma_first_index(rest, c, i - start);
                assert(rest.take(i - start) =~= s@.subrange(start as int, i as int));
                assert(rest.skip(i - start + 1) =~= s@.skip(i + 1));
                assert(split_on(rest, c) == seq![rest.take(i - start)] + split_on(
                    s@.skip(i + 1),
                    c,
                ));
                assert(parts.deep_view() =~= before.push(s@.subrange(start as int, i as int)));
                assert(parts.deep_view() + split_on(s@.skip(i + 1), c) =~= before + (
                seq![rest.take(i - start)] + split_on(s@.skip(i + 1), c)));
            }
            start = i + 1;
        }
        i += 1;
    }
    let ghost before = parts.deep_view();
    let ghost rest = s@.skip(start as int);
    parts.push(s.substring_char(start, v.len()));
    proof {
        lemma_first_index(rest, c, rest.len() as int);
        assert(rest =~= s@.subrange(start as int, v@.len() as int));
        assert(parts.deep_view() =~= before + seq![rest]);
    }
    parts
}

/// The decimal digit of a number below ten.
pub open spec fn digit(n: nat) -> char {
    (('0' as int) + n) as char
}

/// `n` in decimal, without leading zeros.
pub open spec fn decimal(n: nat) -> Seq<char>
    decreases n,
{
    if n < 10 {
        seq![digit(n)]
    } else {
        decimal(n / 10).push(digit(n % 10))
    }
}

/// Appends `n` in decimal to `out`.
pub fn push_decimal(out: &mut String, n: usize)
    ensures
        final(out)@ == old(out)@ + decimal(n as nat),
    decreases n,
{
    if n >= 10 {
        push_decimal(out, n / 10);
    }
    let d: u8 = 48 + (n % 10) as u8;
    out.push(d as char);
    assert(out@ =~= old(out)@ + decimal(n as nat));
}

/// An ASCII hexadecimal digit, of either case.
pub open spec fn is_hex_digit(c: char) -> bool {
    '0' <= c <= '9' || 'a' <= c <= 'f' || 'A' <= c <= 'F'
}

/// The hexadecimal digits of `s`, in their order.
pub open spec fn hex_digits(s: Seq<char>) -> Seq<char> {
    s.filter(|c: char| is_hex_digit(c))
}

/// Keeps the hexadecimal digits of `s`; also tells how many there are.
pub fn keep_hex_digits(s: &str) -> (r: (String, usize))
    ensures
        r.0@ == hex_digits(s@),
        r.1 == hex_digits(s@).len(),
{
    let v = chars_of(s);
    let mut out = String::new();
    let mut n: usize = 0;
    let mut i: usize = 0;
    let ghost keep = |c: char| is_hex_digit(c);
    proof {
        reveal(Seq::filter);
        assert(s@.take(0).filter(keep) =~= Seq::<char>::empty());
    }
    while i < v.len()
        invariant
            v@ == s@,
            i <= v@.len(),
            keep == (|c: char| is_hex_digit(c)),
            out@ == s@.take(i as int).filter(keep),
            n == out@.len(),
            n <= i,
        decreases v@.len() - i,
    {
        let c = v[i];
        proof {
            reveal(Seq::filter);
            assert(s@.take(i + 1).drop_last() =~= s@.take(i as int));
        }
        if ('0' <= c && c <= '9') || ('a' <= c && c <= 'f') || ('A' <= c && c <= 'F') {
            out.push(c);
            n += 1;
        }
        i += 1;
    }
    assert(s@.take(i as int) =~= s@);
    (out, n)
}

} // verus!
