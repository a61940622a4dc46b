//! The `X-Forwarded-Client-Cert` header: a chain of hops, each a list of
//! `key=value` fields.
use crate::string_map::StringMap;
use crate::text;
use vstd::prelude::*;
use vstd::slice::slice_subrange;
use vstd::utf8::*;

verus! {

/// The byte `"`.
pub const QUOTE: u8 = 0x22;

/// The byte `;`.
pub const SEMICOLON: u8 = 0x3b;

/// The byte `=`.
pub const EQUALS: u8 = 0x3d;

/// The byte `\`.
pub const BACKSLASH: u8 = 0x5c;

/// Where a character stands with respect to quoted runs.
#[derive(Debug, Clone, Copy, PartialEq, Eq, Structural)]
pub enum QuoteState {
    /// Outside every quoted run.
    Outside,
    /// Inside a quoted run.
    Quoted,
    /// Inside a quoted run, right behind the backslash of an escape.
    Escaped,
}

/// The state behind the character `c`, given the state before it.
pub open spec fn state_behind(state: QuoteState, c: char) -> QuoteState {
    match state {
        QuoteState::Outside => if c == '"' {
            QuoteState::Quoted
        } else {
            QuoteState::Outside
        },
        QuoteState::Quoted => if c == '"' {
            QuoteState::Outside
        } else if c == '\\' {
            QuoteState::Escaped
        } else {
            QuoteState::Quoted
        },
        QuoteState::Escaped => QuoteState::Quoted,
    }
}

/// The state behind the text `s`, which starts outside every quoted run.
pub open spec fn quote_state(s: Seq<char>) -> QuoteState
    decreases s.len(),
{
    if s.len() == 0 {
        QuoteState::Outside
    } else {
        state_behind(quote_state(s.drop_last()), s.last())
    }
}

/// Whether the character at `i` ends a hop: a comma outside every quoted run.
pub open spec fn is_hop_boundary(s: Seq<char>, i: int) -> bool {
    s[i] == ',' && quote_state(s.take(i)) == QuoteState::Outside
}

/// The hops of a header value: what stands between its hop boundaries.
pub open spec fn hops_of(s: Seq<char>) -> Seq<Seq<char>>
    decreases s.len(),
{
    if s.len() == 0 {
        seq![Seq::<char>::empty()]
    } else {
        let before = hops_of(s.drop_last());
        if is_hop_boundary(s, s.len() - 1) {
            before.push(Seq::empty())
        } else {
            before.drop_last().push(before.last().push(s.last()))
        }
    }
}

/// There is always at least one hop.
pub proof fn lemma_hops_nonempty(s: Seq<char>)
    ensures
        hops_of(s).len() >= 1,
    decreases s.len(),
{
    if s.len() > 0 {
        lemma_hops_nonempty(s.drop_last());
    }
}

/// Follows one character through the quoted runs.
fn advance(state: QuoteState, c: char) -> (r: QuoteState)
    ensures
        r == state_behind(state, c),
{
    match state {
        QuoteState::Outside => if c == '"' {
            QuoteState::Quoted
        } else {
            QuoteState::Outside
        },
        QuoteState::Quoted => if c == '"' {
            QuoteState::Outside
        } else if c == '\\' {
            QuoteState::Escaped
        } else {
            QuoteState::Quoted
        },
        QuoteState::Escaped => QuoteState::Quoted,
    }
}

/// Splits a header value into its hops. A comma inside a quoted run is part of
/// a value; in a quoted run a backslash takes the next character with it.
pub fn split_xfcc_hops<'a>(raw: &'a str) -> (hops: Vec<&'a str>)
    ensures
        hops.deep_view() == hops_of(raw@),
        hops@.len() >= 1,
{
    let v = text::chars_of(raw);
    let mut hops: Vec<&'a str> = Vec::new();
    let mut start: usize = 0;
    let mut i: usize = 0;
    let mut state = QuoteState::Outside;
    proof {
        assert(raw@.subrange(0, 0) =~= Seq::<char>::empty());
        assert(hops.deep_view().push(raw@.subrange(0, 0)) =~= hops_of(raw@.take(0)));
    }
    while i < v.len()
        invariant
            v@ == raw@,
            start <= i <= v@.len(),
            state == quote_state(raw@.take(i as int)),
            hops.deep_view().push(raw@.subrange(start as int, i as int)) == hops_of(
                raw@.take(i as int),
            ),
        decreases v@.len() - i,
    {
        let c = v[i];
        let ghost seen = raw@.take(i as int);
        let ghost next = raw@.take(i + 1);
        let ghost before = hops.deep_view();
        let ghost open = raw@.subrange(start as int, i as int);
        assert(next.drop_last() =~= seen);
        assert(next.take(next.len() - 1) =~= seen);
        if c == ',' && state == QuoteState::Outside {
            hops.push(raw.substring_char(start, i));
            start = i + 1;
            proof {
                assert(hops.deep_view() =~= before.push(open));
                assert(raw@.subrange(start as int, i + 1) =~= Seq::<char>::empty());
            }
        } else {
            proof {
                assert(before.push(open).drop_last() =~= before);
                assert(raw@.subrange(start as int, i + 1) =~= open.push(c));
            }
        }
        state = advance(state, c);
        i += 1;
    }
    let ghost before = hops.deep_view();
    hops.push(raw.substring_char(start, v.len()));
    proof {
        assert(raw@.take(i as int) =~= raw@);
        assert(hops.deep_view() =~= before.push(raw@.subrange(start as int, i as int)));
    }
    hops
}

/// The value of a quoted run and what follows its closing quote, from behind the
/// opening quote on. A backslash stands for the byte behind it.
pub open spec fn quoted_value(s: Seq<u8>) -> (Seq<u8>, Seq<u8>)
    decreases s.len(),
{
    if s.len() == 0 {
        (Seq::empty(), s)
    } else if s[0] == BACKSLASH && s.len() >= 2 {
        let (value, rest) = quoted_value(s.skip(2));
        (seq![s[1]] + value, rest)
    } else if s[0] == QUOTE {
        (Seq::empty(), s.skip(1))
    } else {
        let (value, rest) = quoted_value(s.skip(1));
        (seq![s[0]] + value, rest)
    }
}

/// The value of a field and what follows it, from behind the `=` on: a quoted
/// run, or everything up to the next `;`.
pub open spec fn field_value(s: Seq<u8>) -> (Seq<u8>, Seq<u8>) {
    if s.len() > 0 && s[0] == QUOTE {
        quoted_value(s.skip(1))
    } else {
        let end = text::first_index(s, SEMICOLON);
        (s.take(end), s.skip(end))
    }
}

/// `s` without the `;` that it starts with, if it does.
pub open spec fn without_separator(s: Seq<u8>) -> Seq<u8> {
    if s.len() > 0 && s[0] == SEMICOLON {
        s.skip(1)
    } else {
        s
    }
}

/// The fields of a hop, in their order: the bytes of each key and value.
pub open spec fn fields_of(s: Seq<u8>) -> Seq<(Seq<u8>, Seq<u8>)>
    decreases s.len(),
{
    let key_end = text::first_index(s, EQUALS);
    if key_end < s.len() {
        let (value, rest) = field_value(s.skip(key_end + 1));
        proof {
            text::lemma_first_index_bounds(s, EQUALS);
            lemma_field_value_shrinks(s.skip(key_end + 1));
        }
        seq![(s.take(key_end), value)] + fields_of(without_separator(rest))
    } else {
        Seq::empty()
    }
}

/// What follows a quoted run is no longer than what holds the run.
pub proof fn lemma_quoted_value_shrinks(s: Seq<u8>)
    ensures
        quoted_value(s).1.len() <= s.len(),
    decreases s.len(),
{
    if s.len() == 0 {
    } else if s[0] == BACKSLASH && s.len() >= 2 {
        lemma_quoted_value_shrinks(s.skip(2));
    } else if s[0] != QUOTE {
        lemma_quoted_value_shrinks(s.skip(1));
    }
}

/// What follows a value is no longer than what holds the value.
pub proof fn lemma_field_value_shrinks(s: Seq<u8>)
    ensures
        field_value(s).1.len() <= s.len(),
{
    if s.len() > 0 && s[0] == QUOTE {
        lemma_quoted_value_shrinks(s.skip(1));
    } else {
        text::lemma_first_index_bounds(s, SEMICOLON);
    }
}

/// The characters that `bytes` encode in UTF-8; none where they do not.
pub open spec fn utf8_text(bytes: Seq<u8>) -> Seq<char> {
    if valid_utf8(bytes) {
        decode_utf8(bytes)
    } else {
        Seq::empty()
    }
}

/// One character for each byte: the one with that byte's number.
pub open spec fn byte_chars(bytes: Seq<u8>) -> Seq<char> {
    bytes.map_values(|b: u8| b as char)
}

/// The map that fields make up. A key loses the white space around it, a field
/// with an empty key counts for nothing, and of fields with one key the last
/// counts.
pub open spec fn field_map(fields: Seq<(Seq<u8>, Seq<u8>)>) -> Map<Seq<char>, Seq<char>>
    decreases fields.len(),
{
    if fields.len() == 0 {
        Map::empty()
    } else {
        let earlier = field_map(fields.drop_last());
        let key = text::trimmed(utf8_text(fields.last().0));
        if key.len() == 0 {
            earlier
        } else {
            earlier.insert(key, byte_chars(fields.last().1))
        }
    }
}

/// The fields of a hop by their keys.
pub open spec fn hop_map(hop: Seq<char>) -> Map<Seq<char>, Seq<char>> {
    field_map(fields_of(encode_utf8(hop)))
}

/// Reads a quoted run from behind its opening quote on: its value, and where
/// what follows it starts.
fn read_quoted(bytes: &[u8], from: usize) -> (r: (String, usize))
    requires
        from <= bytes@.len(),
    ensures
        from <= r.1 <= bytes@.len(),
        r.0@ == byte_chars(quoted_value(bytes@.skip(from as int)).0),
        bytes@.skip(r.1 as int) == quoted_value(bytes@.skip(from as int)).1,
{
    let mut value = String::new();
    let mut i: usize = from;
    let ghost whole = quoted_value(bytes@.skip(from as int));
    let ghost read = Seq::<u8>::empty();
    proof {
        assert(read + whole.0 =~= whole.0);
        assert(value@ =~= byte_chars(read));
    }
    while i < bytes.len()
        invariant
            from <= i <= bytes@.len(),
            value@ == byte_chars(read),
            whole.0 == read + quoted_value(bytes@.skip(i as int)).0,
            whole.1 == quoted_value(bytes@.skip(i as int)).1,
            whole == quoted_value(bytes@.skip(from as int)),
        decreases bytes@.len() - i,
    {
        let b = bytes[i];
        let ghost left = bytes@.skip(i as int);
        if b == BACKSLASH && i + 1 < bytes.len() {
            value.push(bytes[i + 1] as char);
            proof {
                assert(left.skip(2) =~= bytes@.skip(i + 2));
                let c = bytes@[i + 1];
                assert(read + (seq![c] + quoted_value(left.skip(2)).0) =~= read.push(c)
                    + quoted_value(left.skip(2)).0);
                assert(value@ =~= byte_chars(read.push(c)));
                read = read.push(c);
            }
            i += 2;
        } else if b == QUOTE {
            proof {
                assert(left.skip(1) =~= bytes@.skip(i + 1));
                assert(whole.0 =~= read);
            }
            return (value, i + 1);
        } else {
            value.push(b as char);
            proof {
                assert(left.skip(1) =~= bytes@.skip(i + 1));
                assert(read + (seq![b] + quoted_value(left.skip(1)).0) =~= read.push(b)
                    + quoted_value(left.skip(1)).0);
                assert(value@ =~= byte_chars(read.push(b)));
                read = read.push(b);
            }
            i += 1;
        }
    }
    assert(whole.0 =~= read);
    (value, i)
}

/// Reads an unquoted value: its text, and where the `;` behind it or the end is.
fn read_unquoted(bytes: &[u8], from: usize) -> (r: (String, usize))
    requires
        from <= bytes@.len(),
    ensures
        from <= r.1 <= bytes@.len(),
        r.1 - from == text::first_index(bytes@.skip(from as int), SEMICOLON),
        r.0@ == byte_chars(bytes@.subrange(from as int, r.1 as int)),
{
    let mut value = String::new();
    let mut i: usize = from;
    assert(value@ =~= byte_chars(bytes@.subrange(from as int, from as int)));
    while i < bytes.len() && bytes[i] != SEMICOLON
        invariant
            from <= i <= bytes@.len(),
            forall|j: int| from <= j < i ==> bytes@[j] != SEMICOLON,
            value@ == byte_chars(bytes@.subrange(from as int, i as int)),
        decreases bytes@.len() - i,
    {
        value.push(bytes[i] as char);
        i += 1;
        assert(value@ =~= byte_chars(bytes@.subrange(from as int, i as int)));
    }
    proof {
        text::lemma_first_index(bytes@.skip(from as int), SEMICOLON, i - from);
    }
    (value, i)
}

/// Reads a value from behind the `=` on.
fn read_value(bytes: &[u8], from: usize) -> (r: (String, usize))
    requires
        from <= bytes@.len(),
    ensures
        from <= r.1 <= bytes@.len(),
        r.0@ == byte_chars(field_value(bytes@.skip(from as int)).0),
        bytes@.skip(r.1 as int) == field_value(bytes@.skip(from as int)).1,
{
    let ghost left = bytes@.skip(from as int);
    if from < bytes.len() && bytes[from] == QUOTE {
        assert(left.skip(1) =~= bytes@.skip(from + 1));
        read_quoted(bytes, from + 1)
    } else {
        let r = read_unquoted(bytes, from);
        proof {
            let end = r.1 - from;
            assert(left.take(end) =~= bytes@.subrange(from as int, r.1 as int));
            assert(left.skip(end) =~= bytes@.skip(r.1 as int));
        }
        r
    }
}

/// Reads the key that the bytes from `from` up to `to` hold.
fn read_key(bytes: &[u8], from: usize, to: usize) -> (key: String)
    requires
        from <= to <= bytes@.len(),
    ensures
        key@ == text::trimmed(utf8_text(bytes@.subrange(from as int, to as int))),
{
    match core::str::from_utf8(slice_subrange(bytes, from, to)) {
        Ok(s) => s.trim().to_owned(),
        Err(_) => {
            let key = String::new();
            assert(key@ =~= text::trimmed(Seq::<char>::empty()));
            key
        },
    }
}

/// Reads the fields of one hop.
pub fn parse_xfcc_hop(hop: &str) -> (out: StringMap<String>)
    ensures
        out@ == hop_map(hop@),
{
    let bytes = hop.as_bytes();
    let mut out: StringMap<String> = StringMap::new();
    let mut i: usize = 0;
    let ghost all = fields_of(bytes@);
    let ghost done = Seq::<(Seq<u8>, Seq<u8>)>::empty();
    proof {
        assert(bytes@.skip(0) =~= bytes@);
        assert(done + all =~= all);
    }
    while i < bytes.len()
        invariant
            i <= bytes@.len(),
            bytes@ == encode_utf8(hop@),
            all == fields_of(bytes@),
            all == done + fields_of(bytes@.skip(i as int)),
            out@ == field_map(done),
        decreases bytes@.len() - i,
    {
        let ghost left = bytes@.skip(i as int);
        let key_start: usize = i;
        while i < bytes.len() && bytes[i] != EQUALS
            invariant
                key_start <= i <= bytes@.len(),
                forall|j: int| key_start <= j < i ==> bytes@[j] != EQUALS,
            decreases bytes@.len() - i,
        {
            i += 1;
        }
        proof {
            text::lemma_first_index(left, EQUALS, i - key_start);
        }
        if i >= bytes.len() {
            assert(all =~= done);
            return out;
        }
        let key = read_key(bytes, key_start, i);
        let key_end: usize = i;
        let (value, end) = read_value(bytes, key_end + 1);
        let ghost field = (
            bytes@.subrange(key_start as int, key_end as int),
            field_value(bytes@.skip(key_end + 1)).0,
        );
        proof {
            assert(left.take(key_end - key_start) =~= field.0);
            assert(left.skip(key_end - key_start + 1) =~= bytes@.skip(key_end + 1));
            assert(done.push(field).drop_last() =~= done);
        }
        if !key.as_str().is_empty() {
            out.insert(key, value);
        }
        i = end;
        if i < bytes.len() && bytes[i] == SEMICOLON {
            assert(bytes@.skip(i as int).skip(1) =~= bytes@.skip(i + 1));
            i += 1;
        }
        proof {
            assert(bytes@.skip(i as int) == without_separator(bytes@.skip(end as int)));
            assert(fields_of(left) == seq![field] + fields_of(bytes@.skip(i as int)));
            assert(done + (seq![field] + fields_of(bytes@.skip(i as int))) =~= done.push(field)
                + fields_of(bytes@.skip(i as int)));
            done = done.push(field);
        }
    }
    assert(all =~= done);
    out
}

} // verus!
