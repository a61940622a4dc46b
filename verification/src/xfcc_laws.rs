//! What holds of every `X-Forwarded-Client-Cert` header.
use crate::config::{ChainPosition, SourceView};
use crate::source;
use crate::text;
use crate::xfcc;
use crate::xfcc::QuoteState;
use vstd::prelude::*;
use vstd::utf8::*;

verus! {

/// One character more that ends no hop is one more character of the last hop.
proof fn lemma_push_inside(s: Seq<char>, c: char)
    requires
        !(c == ',' && xfcc::quote_state(s) == QuoteState::Outside),
    ensures
        xfcc::hops_of(s.push(c)) == xfcc::hops_of(s).drop_last().push(
            xfcc::hops_of(s).last().push(c),
        ),
        xfcc::quote_state(s.push(c)) == xfcc::state_behind(xfcc::quote_state(s), c),
{
    assert(s.push(c).drop_last() =~= s);
    assert(s.push(c).take(s.len() as int) =~= s);
}

/// A comma outside every quoted run starts a new hop.
proof fn lemma_push_boundary(s: Seq<char>)
    requires
        xfcc::quote_state(s) == QuoteState::Outside,
    ensures
        xfcc::hops_of(s.push(',')) == xfcc::hops_of(s).push(Seq::empty()),
        xfcc::quote_state(s.push(',')) == QuoteState::Outside,
{
    assert(s.push(',').drop_last() =~= s);
    assert(s.push(',').take(s.len() as int) =~= s);
}

/// Splitting a header value loses nothing: the hops with commas between them are
/// the value.
pub proof fn law_hops_join_to_the_value(s: Seq<char>)
    ensures
        text::join_with(xfcc::hops_of(s), ',') == s,
    decreases s.len(),
{
    if s.len() > 0 {
        let start = s.drop_last();
        let before = xfcc::hops_of(start);
        law_hops_join_to_the_value(start);
        xfcc::lemma_hops_nonempty(start);
        if xfcc::is_hop_boundary(s, s.len() - 1) {
            assert(before.push(Seq::empty()).drop_last() =~= before);
            assert(text::join_with(before.push(Seq::empty()), ',') =~= s);
        } else {
            let longer = before.drop_last().push(before.last().push(s.last()));
            assert(start.push(s.last()) =~= s);
            assert(longer.drop_last() =~= before.drop_last());
            assert(longer.last() == before.last().push(s.last()));
            if before.len() > 1 {
                let head = text::join_with(before.drop_last(), ',').push(',');
                assert(head + before.last().push(s.last()) =~= (head + before.last()).push(
                    s.last(),
                ));
            }
        }
    }
}

/// No hop can be split any further: it holds no comma outside a quoted run.
pub proof fn law_hops_are_not_split_further(s: Seq<char>, k: int)
    requires
        0 <= k < xfcc::hops_of(s).len(),
    ensures
        xfcc::hops_of(xfcc::hops_of(s)[k]) == seq![xfcc::hops_of(s)[k]],
{
    lemma_hops_stand_alone(s);
}

proof fn lemma_hops_stand_alone(s: Seq<char>)
    ensures
        forall|k: int|
            0 <= k < xfcc::hops_of(s).len() ==> xfcc::hops_of(#[trigger] xfcc::hops_of(s)[k])
                == seq![xfcc::hops_of(s)[k]],
        xfcc::quote_state(xfcc::hops_of(s).last()) == xfcc::quote_state(s),
    decreases s.len(),
{
    let hops = xfcc::hops_of(s);
    let none = Seq::<char>::empty();
    assert(xfcc::hops_of(none) == seq![none]);
    if s.len() > 0 {
        let start = s.drop_last();
        let before = xfcc::hops_of(start);
        lemma_hops_stand_alone(start);
        xfcc::lemma_hops_nonempty(start);
        assert(s.take(s.len() - 1) =~= start);
        assert(start.push(s.last()) =~= s);
        if xfcc::is_hop_boundary(s, s.len() - 1) {
            assert(hops =~= before.push(none));
            assert forall|k: int| 0 <= k < hops.len() implies xfcc::hops_of(#[trigger] hops[k])
                == seq![hops[k]] by {
                if k < before.len() {
                    assert(hops[k] == before[k]);
                }
            }
        } else {
            let last = before.last();
            assert(xfcc::hops_of(before[before.len() - 1]) == seq![last]);
            lemma_push_inside(last, s.last());
            assert(seq![last].drop_last().push(last.push(s.last())) =~= seq![last.push(s.last())]);
            assert forall|k: int| 0 <= k < hops.len() implies xfcc::hops_of(#[trigger] hops[k])
                == seq![hops[k]] by {
                if k < before.len() - 1 {
                    assert(hops[k] == before[k]);
                } else {
                    assert(hops[k] == last.push(s.last()));
                }
            }
        }
    }
}

/// Where a value ends outside every quoted run, a comma and another value behind
/// it add the other value's hops.
pub proof fn law_hops_of_a_longer_chain(a: Seq<char>, b: Seq<char>)
    requires
        xfcc::quote_state(a) == QuoteState::Outside,
    ensures
        xfcc::hops_of(a.push(',') + b) == xfcc::hops_of(a) + xfcc::hops_of(b),
        xfcc::quote_state(a.push(',') + b) == xfcc::quote_state(b),
    decreases b.len(),
{
    let head = a.push(',');
    lemma_push_boundary(a);
    if b.len() == 0 {
        assert(head + b =~= head);
        assert(xfcc::hops_of(a).push(Seq::empty()) =~= xfcc::hops_of(a) + xfcc::hops_of(b));
    } else {
        let start = b.drop_last();
        let c = b.last();
        law_hops_of_a_longer_chain(a, start);
        xfcc::lemma_hops_nonempty(start);
        assert(head + b =~= (head + start).push(c));
        assert(b =~= start.push(c));
        let x = xfcc::hops_of(a);
        let y = xfcc::hops_of(start);
        if c == ',' && xfcc::quote_state(start) == QuoteState::Outside {
            lemma_push_boundary(head + start);
            lemma_push_boundary(start);
            assert((x + y).push(Seq::empty()) =~= x + y.push(Seq::empty()));
        } else {
            lemma_push_inside(head + start, c);
            lemma_push_inside(start, c);
            assert((x + y).drop_last().push((x + y).last().push(c)) =~= x + y.drop_last().push(
                y.last().push(c),
            ));
        }
    }
}

/// A hop on its own: it ends outside every quoted run, and is one hop.
pub open spec fn is_whole_hop(s: Seq<char>) -> bool {
    xfcc::quote_state(s) == QuoteState::Outside && xfcc::hops_of(s) == seq![s]
}

/// A chain of whole hops is split into exactly these hops.
pub proof fn law_chain_of_hops_is_read_back(hops: Seq<Seq<char>>)
    requires
        hops.len() > 0,
        forall|k: int| 0 <= k < hops.len() ==> is_whole_hop(#[trigger] hops[k]),
    ensures
        xfcc::hops_of(text::join_with(hops, ',')) == hops,
        xfcc::quote_state(text::join_with(hops, ',')) == QuoteState::Outside,
    decreases hops.len(),
{
    assert(is_whole_hop(hops[hops.len() - 1]));
    if hops.len() == 1 {
        assert(seq![hops[0]] =~= hops);
    } else {
        let before = hops.drop_last();
        assert forall|k: int| 0 <= k < before.len() implies is_whole_hop(#[trigger] before[k]) by {
            assert(before[k] == hops[k]);
        }
        law_chain_of_hops_is_read_back(before);
        law_hops_of_a_longer_chain(text::join_with(before, ','), hops.last());
        assert(before + seq![hops.last()] =~= hops);
    }
}

/// How a character is written in a quoted run.
pub open spec fn escaped_char(c: char) -> Seq<char> {
    if c == '"' || c == '\\' {
        seq!['\\', c]
    } else {
        seq![c]
    }
}

/// A text as it is written in a quoted run: with a backslash before each quote
/// and each backslash.
pub open spec fn escaped(v: Seq<char>) -> Seq<char>
    decreases v.len(),
{
    if v.len() == 0 {
        Seq::empty()
    } else {
        escaped(v.drop_last()) + escaped_char(v.last())
    }
}

/// A text as a quoted run.
pub open spec fn quoted(v: Seq<char>) -> Seq<char> {
    seq!['"'] + escaped(v) + seq!['"']
}

/// A quoted run stays in one hop, whatever it holds: commas, quotes and
/// backslashes too.
pub proof fn law_quoted_run_stays_in_its_hop(before: Seq<char>, v: Seq<char>)
    requires
        xfcc::quote_state(before) == QuoteState::Outside,
    ensures
        xfcc::hops_of(before + quoted(v)) == xfcc::hops_of(before).drop_last().push(
            xfcc::hops_of(before).last() + quoted(v),
        ),
        xfcc::quote_state(before + quoted(v)) == QuoteState::Outside,
{
    let open = before.push('"') + escaped(v);
    lemma_inside_quoted_run(before, v);
    lemma_push_inside(open, '"');
    assert(open.push('"') =~= before + quoted(v));
    let last = xfcc::hops_of(before).last();
    let init = xfcc::hops_of(before).drop_last();
    assert(xfcc::hops_of(open).drop_last() =~= init);
    assert((last.push('"') + escaped(v)).push('"') =~= last + quoted(v));
}

proof fn lemma_inside_quoted_run(before: Seq<char>, v: Seq<char>)
    requires
        xfcc::quote_state(before) == QuoteState::Outside,
    ensures
        xfcc::hops_of(before.push('"') + escaped(v)) == xfcc::hops_of(before).drop_last().push(
            xfcc::hops_of(before).last().push('"') + escaped(v),
        ),
        xfcc::quote_state(before.push('"') + escaped(v)) == QuoteState::Quoted,
    decreases v.len(),
{
    let head = before.push('"');
    let init = xfcc::hops_of(before).drop_last();
    let last = xfcc::hops_of(before).last().push('"');
    if v.len() == 0 {
        lemma_push_inside(before, '"');
        assert(head + escaped(v) =~= head);
        assert(last + escaped(v) =~= last);
    } else {
        let start = v.drop_last();
        let c = v.last();
        lemma_inside_quoted_run(before, start);
        let s = head + escaped(start);
        assert(init.push(last + escaped(start)).drop_last() =~= init);
        if c == '"' || c == '\\' {
            lemma_push_inside(s, '\\');
            lemma_push_inside(s.push('\\'), c);
            let t = (last + escaped(start)).push('\\');
            assert(init.push(t).drop_last() =~= init);
            assert(s.push('\\').push(c) =~= head + escaped(v));
            assert(t.push(c) =~= last + escaped(v));
        } else {
            lemma_push_inside(s, c);
            assert(s.push(c) =~= head + escaped(v));
            assert((last + escaped(start)).push(c) =~= last + escaped(v));
        }
    }
}

/// Text with neither commas nor quotes stays in its hop and outside every quoted
/// run.
proof fn lemma_plain_text(before: Seq<char>, plain: Seq<char>)
    requires
        xfcc::quote_state(before) == QuoteState::Outside,
        forall|i: int| 0 <= i < plain.len() ==> plain[i] != ',' && plain[i] != '"',
    ensures
        xfcc::hops_of(before + plain) == xfcc::hops_of(before).drop_last().push(
            xfcc::hops_of(before).last() + plain,
        ),
        xfcc::quote_state(before + plain) == QuoteState::Outside,
    decreases plain.len(),
{
    let init = xfcc::hops_of(before).drop_last();
    let last = xfcc::hops_of(before).last();
    xfcc::lemma_hops_nonempty(before);
    if plain.len() == 0 {
        assert(before + plain =~= before);
        assert(last + plain =~= last);
        assert(init.push(last) =~= xfcc::hops_of(before));
    } else {
        let start = plain.drop_last();
        let c = plain.last();
        lemma_plain_text(before, start);
        lemma_push_inside(before + start, c);
        assert((before + start).push(c) =~= before + plain);
        assert(init.push(last + start).drop_last() =~= init);
        assert((last + start).push(c) =~= last + plain);
    }
}

/// How a byte is written in a quoted run.
pub open spec fn escaped_byte(b: u8) -> Seq<u8> {
    if b == xfcc::QUOTE || b == xfcc::BACKSLASH {
        seq![xfcc::BACKSLASH, b]
    } else {
        seq![b]
    }
}

/// Bytes as they are written in a quoted run.
pub open spec fn escaped_bytes(v: Seq<u8>) -> Seq<u8>
    decreases v.len(),
{
    if v.len() == 0 {
        Seq::empty()
    } else {
        escaped_byte(v[0]) + escaped_bytes(v.drop_first())
    }
}

/// A quoted value is read back, whatever it holds and whatever follows it.
pub proof fn law_quoted_value_is_read_back(v: Seq<u8>, rest: Seq<u8>)
    ensures
        xfcc::quoted_value(escaped_bytes(v) + seq![xfcc::QUOTE] + rest) == (v, rest),
    decreases v.len(),
{
    let s = escaped_bytes(v) + seq![xfcc::QUOTE] + rest;
    if v.len() == 0 {
        assert(s[0] == xfcc::QUOTE);
        assert(s.skip(1) =~= rest);
        assert(v =~= Seq::<u8>::empty());
    } else {
        let tail = v.drop_first();
        let left = escaped_bytes(tail) + seq![xfcc::QUOTE] + rest;
        law_quoted_value_is_read_back(tail, rest);
        assert(seq![v[0]] + tail =~= v);
        if v[0] == xfcc::QUOTE || v[0] == xfcc::BACKSLASH {
            assert(s[0] == xfcc::BACKSLASH);
            assert(s[1] == v[0]);
            assert(s.skip(2) =~= left);
        } else {
            assert(s[0] == v[0]);
            assert(s.skip(1) =~= left);
        }
    }
}

/// A field of a hop, and whether its value is written as a quoted run or as it
/// stands. `T` is `char` for text and `u8` for its bytes.
pub struct Field<T> {
    pub key: Seq<T>,
    pub value: Seq<T>,
    pub quoted: bool,
}

/// A field as it is written: the key, and the value as a quoted run or as it
/// stands.
pub open spec fn written_field_bytes(f: Field<u8>) -> Seq<u8> {
    if f.quoted {
        f.key + seq![xfcc::EQUALS, xfcc::QUOTE] + escaped_bytes(f.value) + seq![xfcc::QUOTE]
    } else {
        f.key + seq![xfcc::EQUALS] + f.value
    }
}

/// Whether a field can be read back: no `=` in the key, and in a value as it
/// stands neither a `;` nor a quote at its start.
pub open spec fn is_readable_bytes(f: Field<u8>) -> bool {
    &&& !f.key.contains(xfcc::EQUALS)
    &&& !f.quoted ==> !f.value.contains(xfcc::SEMICOLON) && (f.value.len() > 0 ==> f.value[0]
        != xfcc::QUOTE)
}

/// The keys and values of fields, without how they are written.
pub open spec fn pairs_of<T>(fields: Seq<Field<T>>) -> Seq<(Seq<T>, Seq<T>)> {
    fields.map_values(|f: Field<T>| (f.key, f.value))
}

/// A hop as it is written: its fields with `;` between them.
pub open spec fn written_hop_bytes(fields: Seq<Field<u8>>) -> Seq<u8>
    decreases fields.len(),
{
    if fields.len() == 0 {
        Seq::empty()
    } else if fields.len() == 1 {
        written_field_bytes(fields[0])
    } else {
        written_field_bytes(fields[0]) + seq![xfcc::SEMICOLON] + written_hop_bytes(
            fields.drop_first(),
        )
    }
}

/// The fields of a hop are read back, in their order.
pub proof fn law_fields_are_read_back(fields: Seq<Field<u8>>)
    requires
        forall|i: int| 0 <= i < fields.len() ==> is_readable_bytes(#[trigger] fields[i]),
    ensures
        xfcc::fields_of(written_hop_bytes(fields)) == pairs_of(fields),
    decreases fields.len(),
{
    let s = written_hop_bytes(fields);
    if fields.len() == 0 {
        assert(text::first_index(s, xfcc::EQUALS) == 0);
        assert(pairs_of(fields) =~= Seq::<(Seq<u8>, Seq<u8>)>::empty());
    } else {
        let f = fields[0];
        let k = f.key;
        let v = f.value;
        let others = fields.drop_first();
        assert(is_readable_bytes(fields[0]));
        assert forall|i: int| 0 <= i < others.len() implies is_readable_bytes(
            #[trigger] others[i],
        ) by {
            assert(others[i] == fields[i + 1]);
        }
        law_fields_are_read_back(others);
        let n = k.len() as int;
        let rest = if fields.len() == 1 {
            Seq::<u8>::empty()
        } else {
            seq![xfcc::SEMICOLON] + written_hop_bytes(others)
        };
        assert(s =~= written_field_bytes(f) + rest);
        assert forall|j: int| 0 <= j < n implies s[j] != xfcc::EQUALS by {
            assert(s[j] == k[j]);
            assert(k.contains(k[j]));
        }
        assert(s[n] == xfcc::EQUALS);
        text::lemma_first_index(s, xfcc::EQUALS, n);
        assert(s.take(n) =~= k);
        let value = s.skip(n + 1);
        assert(xfcc::field_value(value) == (v, rest)) by {
            if f.quoted {
                assert(value[0] == xfcc::QUOTE);
                assert(value.skip(1) =~= escaped_bytes(v) + seq![xfcc::QUOTE] + rest);
                law_quoted_value_is_read_back(v, rest);
            } else {
                assert(value =~= v + rest);
                let m = v.len() as int;
                assert forall|j: int| 0 <= j < m implies value[j] != xfcc::SEMICOLON by {
                    assert(value[j] == v[j]);
                    assert(v.contains(v[j]));
                }
                text::lemma_first_index(value, xfcc::SEMICOLON, m);
                assert(value.take(m) =~= v);
                assert(value.skip(m) =~= rest);
            }
        }
        if fields.len() == 1 {
            assert(written_hop_bytes(others) =~= Seq::<u8>::empty());
        } else {
            assert(rest.skip(1) =~= written_hop_bytes(others));
        }
        assert(xfcc::without_separator(rest) == written_hop_bytes(others));
        assert(seq![(k, v)] + pairs_of(others) =~= pairs_of(fields));
    }
}

/// A value without quotes ends at the next `;`, and is read as it stands.
pub proof fn law_unquoted_value_is_read_as_it_stands(k: Seq<u8>, v: Seq<u8>, rest: Seq<u8>)
    requires
        !k.contains(xfcc::EQUALS),
        !v.contains(xfcc::SEMICOLON),
        v.len() > 0 ==> v[0] != xfcc::QUOTE,
    ensures
        xfcc::fields_of(k + seq![xfcc::EQUALS] + v + seq![xfcc::SEMICOLON] + rest) == seq![(k, v)]
            + xfcc::fields_of(rest),
{
    let s = k + seq![xfcc::EQUALS] + v + seq![xfcc::SEMICOLON] + rest;
    let n = k.len() as int;
    assert forall|j: int| 0 <= j < n implies s[j] != xfcc::EQUALS by {
        assert(s[j] == k[j]);
        assert(k.contains(k[j]));
    }
    assert(s[n] == xfcc::EQUALS);
    text::lemma_first_index(s, xfcc::EQUALS, n);
    assert(s.take(n) =~= k);
    let value = s.skip(n + 1);
    let m = v.len() as int;
    assert forall|j: int| 0 <= j < m implies value[j] != xfcc::SEMICOLON by {
        assert(value[j] == v[j]);
        assert(v.contains(v[j]));
    }
    assert(value[m] == xfcc::SEMICOLON);
    text::lemma_first_index(value, xfcc::SEMICOLON, m);
    if m > 0 {
        assert(value[0] == v[0]);
    }
    assert(value.take(m) =~= v);
    assert(value.skip(m).skip(1) =~= rest);
}

/// The encoding of two texts, one behind the other.
proof fn lemma_encode_concat(a: Seq<char>, b: Seq<char>)
    ensures
        encode_utf8(a + b) == encode_utf8(a) + encode_utf8(b),
    decreases a.len(),
{
    if a.len() == 0 {
        assert(a + b =~= b);
        assert(encode_utf8(a) + encode_utf8(b) =~= encode_utf8(b));
    } else {
        assert((a + b).drop_first() =~= a.drop_first() + b);
        lemma_encode_concat(a.drop_first(), b);
        let first = encode_scalar(a[0] as u32);
        assert(first + (encode_utf8(a.drop_first()) + encode_utf8(b)) =~= (first + encode_utf8(
            a.drop_first(),
        )) + encode_utf8(b));
    }
}

/// The byte of an ASCII character has the character's number.
proof fn lemma_ascii_byte(c: char)
    requires
        c <= '\u{7f}',
    ensures
        (c as u8) as int == c as int,
{
}

/// An ASCII character is encoded as its own byte, any other as bytes that are no
/// ASCII.
proof fn lemma_encode_char(c: char)
    ensures
        c <= '\u{7f}' ==> encode_utf8(seq![c]) == seq![c as u8],
        c > '\u{7f}' ==> forall|i: int|
            0 <= i < encode_utf8(seq![c]).len() ==> #[trigger] encode_utf8(seq![c])[i] >= 0x80,
{
    let s = seq![c];
    if c <= '\u{7f}' {
        assert(is_ascii_chars(s));
        is_ascii_chars_encode_utf8(s);
        assert(s[0] as u8 == encode_utf8(s)[0]);
        assert(encode_utf8(s) =~= seq![c as u8]);
    } else {
        assert(s.drop_first() =~= Seq::<char>::empty());
        assert(encode_utf8(s.drop_first()) =~= Seq::<u8>::empty());
        assert(encode_utf8(s) =~= encode_scalar(c as u32));
        encode_utf8_first_scalar(s);
        assert(!has_width_1_encoding(c as u32));
    }
}

/// The byte of an ASCII character is in an encoding only where the character is in
/// the text.
proof fn lemma_encode_lacks(s: Seq<char>, c: char)
    requires
        c <= '\u{7f}',
        !s.contains(c),
    ensures
        !encode_utf8(s).contains(c as u8),
    decreases s.len(),
{
    if s.len() > 0 {
        let start = s.drop_last();
        let last = s.last();
        assert forall|i: int| 0 <= i < start.len() implies start[i] != c by {
            assert(start[i] == s[i]);
            assert(s.contains(s[i]));
        }
        lemma_encode_lacks(start, c);
        lemma_encode_concat(start, seq![last]);
        assert(start + seq![last] =~= s);
        lemma_encode_char(last);
        assert(s.contains(last));
        assert forall|i: int| 0 <= i < encode_utf8(s).len() implies encode_utf8(s)[i] != c as u8 by {
            let n = encode_utf8(start).len();
            if i < n {
                assert(encode_utf8(s)[i] == encode_utf8(start)[i]);
                assert(encode_utf8(start).contains(encode_utf8(start)[i]));
            } else {
                let e = encode_utf8(seq![last]);
                assert(encode_utf8(s)[i] == e[i - n]);
                if last <= '\u{7f}' {
                    assert(e[i - n] == last as u8);
                    lemma_ascii_byte(last);
                    lemma_ascii_byte(c);
                } else {
                    assert(e[i - n] >= 0x80);
                }
            }
        }
    }
}

/// An encoding starts with the byte of an ASCII character only where the text
/// starts with the character.
proof fn lemma_encode_starts(s: Seq<char>, c: char)
    requires
        c <= '\u{7f}',
        s.len() > 0 ==> s[0] != c,
    ensures
        encode_utf8(s).len() > 0 ==> encode_utf8(s)[0] != c as u8,
{
    if s.len() > 0 {
        let first = seq![s[0]];
        lemma_encode_concat(first, s.drop_first());
        assert(first + s.drop_first() =~= s);
        lemma_encode_char(s[0]);
        lemma_ascii_byte(c);
        encode_utf8_first_scalar(first);
        let e = encode_utf8(first);
        assert(e.len() > 0);
        assert(encode_utf8(s)[0] == e[0]);
        if s[0] <= '\u{7f}' {
            lemma_ascii_byte(s[0]);
        }
    }
}

proof fn lemma_escaped_bytes_concat(a: Seq<u8>, b: Seq<u8>)
    ensures
        escaped_bytes(a + b) == escaped_bytes(a) + escaped_bytes(b),
    decreases a.len(),
{
    if a.len() == 0 {
        assert(a + b =~= b);
        assert(escaped_bytes(a) + escaped_bytes(b) =~= escaped_bytes(b));
    } else {
        assert((a + b).drop_first() =~= a.drop_first() + b);
        lemma_escaped_bytes_concat(a.drop_first(), b);
        assert(escaped_byte(a[0]) + (escaped_bytes(a.drop_first()) + escaped_bytes(b)) =~= (
        escaped_byte(a[0]) + escaped_bytes(a.drop_first())) + escaped_bytes(b));
    }
}

proof fn lemma_escaped_bytes_plain(v: Seq<u8>)
    requires
        forall|i: int| 0 <= i < v.len() ==> #[trigger] v[i] >= 0x80,
    ensures
        escaped_bytes(v) == v,
    decreases v.len(),
{
    if v.len() > 0 {
        let rest = v.drop_first();
        assert forall|i: int| 0 <= i < rest.len() implies #[trigger] rest[i] >= 0x80 by {
            assert(rest[i] == v[i + 1]);
        }
        lemma_escaped_bytes_plain(rest);
        assert(v[0] >= 0x80);
        assert(seq![v[0]] + rest =~= v);
    }
}

/// Escaping a text and encoding it come to the same in either order.
proof fn lemma_encode_escaped(v: Seq<char>)
    ensures
        encode_utf8(escaped(v)) == escaped_bytes(encode_utf8(v)),
    decreases v.len(),
{
    if v.len() > 0 {
        let start = v.drop_last();
        let c = v.last();
        lemma_encode_escaped(start);
        lemma_encode_concat(escaped(start), escaped_char(c));
        lemma_encode_concat(start, seq![c]);
        assert(start + seq![c] =~= v);
        lemma_escaped_bytes_concat(encode_utf8(start), encode_utf8(seq![c]));
        lemma_encode_char(c);
        let e = encode_utf8(seq![c]);
        assert(encode_utf8(escaped_char(c)) == escaped_bytes(e)) by {
            if c <= '\u{7f}' {
                let b = c as u8;
                let none = Seq::<u8>::empty();
                assert(e.drop_first() =~= none);
                assert(escaped_bytes(none) == none);
                assert(e[0] == b);
                lemma_ascii_byte(c);
                assert('"' as u8 == xfcc::QUOTE);
                assert('\\' as u8 == xfcc::BACKSLASH);
                assert(escaped_bytes(e) =~= escaped_byte(b));
                if c == '"' || c == '\\' {
                    lemma_encode_concat(seq!['\\'], seq![c]);
                    lemma_encode_char('\\');
                    assert(seq!['\\'] + seq![c] =~= seq!['\\', c]);
                    assert(seq![xfcc::BACKSLASH] + seq![b] =~= seq![xfcc::BACKSLASH, b]);
                }
            } else {
                lemma_escaped_bytes_plain(e);
            }
        }
    }
}

/// A field as a proxy writes it: the key, and the value as a quoted run or as it
/// stands.
pub open spec fn written_field(f: Field<char>) -> Seq<char> {
    f.key.push('=') + (if f.quoted {
        quoted(f.value)
    } else {
        f.value
    })
}

/// A hop as a proxy writes it: its fields with `;` between them.
pub open spec fn written_hop(fields: Seq<Field<char>>) -> Seq<char>
    decreases fields.len(),
{
    if fields.len() == 0 {
        Seq::empty()
    } else if fields.len() == 1 {
        written_field(fields[0])
    } else {
        written_field(fields[0]).push(';') + written_hop(fields.drop_first())
    }
}

/// A field that can be read back from a hop: a key that is not empty, has no
/// white space around it and no `=`, and a value that may be any text in a quoted
/// run. As it stands the value holds no `;` and starts with no quote.
pub open spec fn is_readable(f: Field<char>) -> bool {
    &&& f.key.len() > 0
    &&& text::trimmed(f.key) == f.key
    &&& !f.key.contains('=')
    &&& !f.quoted ==> !f.value.contains(';') && (f.value.len() > 0 ==> f.value[0] != '"')
}

/// A field that can be read back from a hop of a chain: outside its quoted run it
/// holds none of the characters that mark hops and quoted runs.
pub open spec fn is_chain_field(f: Field<char>) -> bool {
    &&& is_readable(f)
    &&& !f.key.contains(',') && !f.key.contains('"')
    &&& !f.quoted ==> !f.value.contains(',') && !f.value.contains('"')
}

/// A text as it is read from a hop: one character for each byte of its encoding.
pub open spec fn as_read(v: Seq<char>) -> Seq<char> {
    xfcc::byte_chars(encode_utf8(v))
}

/// ASCII text is read as it is.
pub proof fn law_ascii_text_is_read_as_it_is(v: Seq<char>)
    requires
        is_ascii_chars(v),
    ensures
        as_read(v) == v,
{
    is_ascii_chars_encode_utf8(v);
    assert forall|i: int| 0 <= i < v.len() implies as_read(v)[i] == v[i] by {
        assert(v[i] as u8 == encode_utf8(v)[i]);
    }
    assert(as_read(v) =~= v);
}

/// The map of the fields that a hop was written from. Of fields with one key the
/// last counts.
pub open spec fn written_map(fields: Seq<Field<char>>) -> Map<Seq<char>, Seq<char>>
    decreases fields.len(),
{
    if fields.len() == 0 {
        Map::empty()
    } else {
        written_map(fields.drop_last()).insert(fields.last().key, as_read(fields.last().value))
    }
}

/// The bytes of fields.
pub open spec fn encoded_fields(fields: Seq<Field<char>>) -> Seq<Field<u8>> {
    fields.map_values(|f: Field<char>| encoded_field(f))
}

/// The bytes of a field.
pub open spec fn encoded_field(f: Field<char>) -> Field<u8> {
    Field { key: encode_utf8(f.key), value: encode_utf8(f.value), quoted: f.quoted }
}

proof fn lemma_encode_written_field(f: Field<char>)
    ensures
        encode_utf8(written_field(f)) == written_field_bytes(encoded_field(f)),
{
    let k = f.key;
    let v = f.value;
    lemma_encode_concat(k, seq!['=']);
    lemma_encode_char('=');
    assert(k + seq!['='] =~= k.push('='));
    if f.quoted {
        lemma_encode_concat(k.push('='), quoted(v));
        lemma_encode_concat(seq!['"'] + escaped(v), seq!['"']);
        lemma_encode_concat(seq!['"'], escaped(v));
        lemma_encode_escaped(v);
        lemma_encode_char('"');
        assert(encode_utf8(written_field(f)) =~= written_field_bytes(encoded_field(f)));
    } else {
        lemma_encode_concat(k.push('='), v);
    }
}

proof fn lemma_encode_written_hop(fields: Seq<Field<char>>)
    ensures
        encode_utf8(written_hop(fields)) == written_hop_bytes(encoded_fields(fields)),
    decreases fields.len(),
{
    let encoded = encoded_fields(fields);
    if fields.len() > 0 {
        lemma_encode_written_field(fields[0]);
        if fields.len() > 1 {
            let rest = fields.drop_first();
            lemma_encode_written_hop(rest);
            assert(encoded.drop_first() =~= encoded_fields(rest));
            let head = written_field(fields[0]);
            lemma_encode_concat(head, seq![';']);
            lemma_encode_concat(head.push(';'), written_hop(rest));
            lemma_encode_char(';');
            assert(head + seq![';'] =~= head.push(';'));
        }
    }
}

proof fn lemma_field_map_of_written(fields: Seq<Field<char>>)
    requires
        forall|i: int| 0 <= i < fields.len() ==> is_readable(#[trigger] fields[i]),
    ensures
        xfcc::field_map(pairs_of(encoded_fields(fields))) == written_map(fields),
    decreases fields.len(),
{
    if fields.len() > 0 {
        let start = fields.drop_last();
        let n = fields.len() - 1;
        assert forall|i: int| 0 <= i < start.len() implies is_readable(#[trigger] start[i]) by {
            assert(start[i] == fields[i]);
        }
        lemma_field_map_of_written(start);
        assert(pairs_of(encoded_fields(fields)).drop_last() =~= pairs_of(encoded_fields(start)));
        assert(is_readable(fields[n]));
        encode_utf8_valid_utf8(fields[n].key);
        encode_utf8_decode_utf8(fields[n].key);
    }
}

/// The fields of a hop are read back under their keys, whatever the quoted values hold.
pub proof fn law_hop_is_read_back(fields: Seq<Field<char>>)
    requires
        forall|i: int| 0 <= i < fields.len() ==> is_readable(#[trigger] fields[i]),
    ensures
        xfcc::hop_map(written_hop(fields)) == written_map(fields),
{
    let encoded = encoded_fields(fields);
    lemma_encode_written_hop(fields);
    assert forall|i: int| 0 <= i < encoded.len() implies is_readable_bytes(#[trigger] encoded[i]) by {
        let f = fields[i];
        assert(is_readable(fields[i]));
        lemma_encode_lacks(f.key, '=');
        if !f.quoted {
            lemma_encode_lacks(f.value, ';');
            lemma_encode_starts(f.value, '"');
        }
    }
    law_fields_are_read_back(encoded);
    lemma_field_map_of_written(fields);
}

proof fn lemma_written_hop_extends(before: Seq<char>, fields: Seq<Field<char>>)
    requires
        xfcc::quote_state(before) == QuoteState::Outside,
        forall|i: int| 0 <= i < fields.len() ==> is_chain_field(#[trigger] fields[i]),
    ensures
        xfcc::hops_of(before + written_hop(fields)) == xfcc::hops_of(before).drop_last().push(
            xfcc::hops_of(before).last() + written_hop(fields),
        ),
        xfcc::quote_state(before + written_hop(fields)) == QuoteState::Outside,
    decreases fields.len(),
{
    let init = xfcc::hops_of(before).drop_last();
    let last = xfcc::hops_of(before).last();
    if fields.len() == 0 {
        lemma_plain_text(before, Seq::empty());
    } else {
        let f = fields[0];
        let k = f.key;
        let v = f.value;
        assert(is_chain_field(fields[0]));
        let plain = if f.quoted {
            k.push('=')
        } else {
            k.push('=') + v
        };
        assert forall|i: int| 0 <= i < plain.len() implies plain[i] != ',' && plain[i] != '"' by {
            if i < k.len() {
                assert(plain[i] == k[i]);
                assert(k.contains(k[i]));
            } else if i > k.len() {
                assert(plain[i] == v[i - k.len() - 1]);
                assert(v.contains(v[i - k.len() - 1]));
            }
        }
        lemma_plain_text(before, plain);
        let field = written_field(fields[0]);
        let one = before + field;
        if f.quoted {
            law_quoted_run_stays_in_its_hop(before + plain, v);
            assert(before + plain + quoted(v) =~= one);
            assert(init.push(last + plain).drop_last() =~= init);
            assert(last + plain + quoted(v) =~= last + field);
        }
        if fields.len() > 1 {
            let rest = fields.drop_first();
            lemma_plain_text(one, seq![';']);
            assert forall|i: int| 0 <= i < rest.len() implies is_chain_field(#[trigger] rest[i]) by {
                assert(rest[i] == fields[i + 1]);
            }
            let two = one + seq![';'];
            lemma_written_hop_extends(two, rest);
            assert(init.push(last + field).drop_last() =~= init);
            assert(init.push(last + field + seq![';']).drop_last() =~= init);
            assert(two + written_hop(rest) =~= before + written_hop(fields));
            assert(last + field + seq![';'] + written_hop(rest) =~= last + written_hop(fields));
        }
    }
}

/// A hop as a proxy writes it is a whole hop.
pub proof fn law_written_hop_is_whole(fields: Seq<Field<char>>)
    requires
        forall|i: int| 0 <= i < fields.len() ==> is_chain_field(#[trigger] fields[i]),
    ensures
        is_whole_hop(written_hop(fields)),
{
    let none = Seq::<char>::empty();
    lemma_written_hop_extends(none, fields);
    assert(none + written_hop(fields) =~= written_hop(fields));
    assert(seq![none].drop_last().push(written_hop(fields)) =~= seq![written_hop(fields)]);
}

/// A chain as proxies write it: its hops with commas between them.
pub open spec fn written_chain(hops: Seq<Seq<Field<char>>>) -> Seq<char> {
    text::join_with(hops.map_values(|h: Seq<Field<char>>| written_hop(h)), ',')
}

/// The hop that counts.
pub open spec fn counting_hop(hops: Seq<Seq<Field<char>>>, position: ChainPosition) -> Seq<
    Field<char>,
> {
    match position {
        ChainPosition::First => hops.first(),
        ChainPosition::Last => hops.last(),
    }
}

/// A chain that proxies can write: fields that a hop can hold, and no hop with
/// white space around it, which a reader would take for padding.
pub open spec fn is_chain(hops: Seq<Seq<Field<char>>>) -> bool {
    &&& hops.len() > 0
    &&& forall|h: int|
        0 <= h < hops.len() ==> text::trimmed(written_hop(#[trigger] hops[h])) == written_hop(
            hops[h],
        )
    &&& forall|h: int, i: int|
        0 <= h < hops.len() && 0 <= i < hops[h].len() ==> is_chain_field(#[trigger] hops[h][i])
}

/// Of a chain as proxies write it, the details are those of the first hop or of
/// the last, as configured, whatever the quoted values of any hop hold.
pub proof fn law_chain_gives_the_details_of_the_chosen_hop(
    hops: Seq<Seq<Field<char>>>,
    position: ChainPosition,
)
    requires
        is_chain(hops),
    ensures
        source::xfcc_details(written_chain(hops), position) == source::hop_details(
            written_map(counting_hop(hops, position)),
        ),
{
    let written = hops.map_values(|h: Seq<Field<char>>| written_hop(h));
    assert forall|h: int| 0 <= h < written.len() implies is_whole_hop(#[trigger] written[h]) by {
        assert forall|i: int| 0 <= i < hops[h].len() implies is_chain_field(#[trigger] hops[h][i]) by {}
        law_written_hop_is_whole(hops[h]);
    }
    law_chain_of_hops_is_read_back(written);
    let n: int = match position {
        ChainPosition::First => 0,
        ChainPosition::Last => hops.len() - 1,
    };
    let fields = hops[n];
    assert forall|i: int| 0 <= i < fields.len() implies is_chain_field(#[trigger] fields[i]) by {
        assert(is_chain_field(hops[n][i]));
    }
    assert(text::trimmed(written_hop(hops[n])) == written_hop(fields));
    assert(source::chosen_hop(written_chain(hops), position) == written_hop(fields));
    law_hop_is_read_back(fields);
}

/// The field at `i` is the last one with the key `key`.
pub open spec fn is_last_with_key(fields: Seq<Field<char>>, i: int, key: Seq<char>) -> bool {
    &&& 0 <= i < fields.len()
    &&& fields[i].key == key
    &&& forall|j: int| i < j < fields.len() ==> (#[trigger] fields[j]).key != key
}

proof fn lemma_written_map_at(fields: Seq<Field<char>>, i: int, key: Seq<char>)
    requires
        is_last_with_key(fields, i, key),
    ensures
        written_map(fields).contains_key(key),
        written_map(fields)[key] == as_read(fields[i].value),
    decreases fields.len(),
{
    let last = fields.len() - 1;
    if i < last {
        assert(fields[last].key != key);
        let start = fields.drop_last();
        assert forall|j: int| i < j < start.len() implies (#[trigger] start[j]).key != key by {
            assert(start[j] == fields[j]);
        }
        lemma_written_map_at(start, i, key);
    }
}

/// The subject DN that a proxy writes into the hop that counts is given as it is,
/// its commas, quotes and backslashes too.
pub proof fn law_written_subject_is_given(
    headers: Seq<(Seq<char>, Seq<char>)>,
    header: Seq<char>,
    hops: Seq<Seq<Field<char>>>,
    chain_position: ChainPosition,
    i: int,
)
    requires
        is_chain(hops),
        source::header_value(headers, header) == Some(written_chain(hops)),
        is_last_with_key(counting_hop(hops, chain_position), i, "Subject"@),
        is_ascii_chars(counting_hop(hops, chain_position)[i].value),
    ensures
        source::source_details(SourceView::Xfcc { header, chain_position }, headers) matches Some(
            cert,
        ) && cert.subject_dn == Some(counting_hop(hops, chain_position)[i].value),
{
    let fields = counting_hop(hops, chain_position);
    law_chain_gives_the_details_of_the_chosen_hop(hops, chain_position);
    lemma_written_map_at(fields, i, "Subject"@);
    law_ascii_text_is_read_as_it_is(fields[i].value);
}

/// The hash that a proxy writes into the hop that counts is given in lower case.
pub proof fn law_written_hash_is_given(
    headers: Seq<(Seq<char>, Seq<char>)>,
    header: Seq<char>,
    hops: Seq<Seq<Field<char>>>,
    chain_position: ChainPosition,
    i: int,
)
    requires
        is_chain(hops),
        source::header_value(headers, header) == Some(written_chain(hops)),
        is_last_with_key(counting_hop(hops, chain_position), i, "Hash"@),
        is_ascii_chars(counting_hop(hops, chain_position)[i].value),
    ensures
        source::source_details(SourceView::Xfcc { header, chain_position }, headers) matches Some(
            cert,
        ) && cert.fingerprint_sha256 == Some(
            text::ascii_lowercase(counting_hop(hops, chain_position)[i].value),
        ),
{
    let fields = counting_hop(hops, chain_position);
    law_chain_gives_the_details_of_the_chosen_hop(hops, chain_position);
    lemma_written_map_at(fields, i, "Hash"@);
    law_ascii_text_is_read_as_it_is(fields[i].value);
}

/// What stands before an ASCII byte of an encoding is an encoding too, and so is
/// what stands behind it.
proof fn lemma_around_ascii_byte(bytes: Seq<u8>, k: int)
    requires
        valid_utf8(bytes),
        0 <= k < bytes.len(),
        bytes[k] < 0x80,
    ensures
        valid_utf8(bytes.take(k)),
        valid_utf8(bytes.skip(k + 1)),
{
    is_char_boundary_iff_not_is_continuation_byte(bytes, k);
    assert(!is_continuation_byte(bytes[k]));
    valid_utf8_split(bytes, k);
    let n = bytes.len() as int;
    assert(bytes.subrange(0, k) =~= bytes.take(k));
    let tail = bytes.subrange(k, n);
    assert(tail[0] == bytes[k]);
    assert(pop_first_scalar(tail) =~= bytes.skip(k + 1));
}

/// A quoted run ends at a quote or at the end.
proof fn lemma_quoted_run_ends(s: Seq<u8>) -> (end: int)
    ensures
        0 <= end <= s.len(),
        xfcc::quoted_value(s).1 == s.skip(end),
        end == s.len() || (end > 0 && s[end - 1] == xfcc::QUOTE),
    decreases s.len(),
{
    if s.len() == 0 {
        assert(s.skip(0) =~= s);
        0
    } else if s[0] == xfcc::BACKSLASH && s.len() >= 2 {
        let end = lemma_quoted_run_ends(s.skip(2));
        assert(s.skip(2).skip(end) =~= s.skip(end + 2));
        end + 2
    } else if s[0] == xfcc::QUOTE {
        1
    } else {
        let end = lemma_quoted_run_ends(s.skip(1));
        assert(s.skip(1).skip(end) =~= s.skip(end + 1));
        end + 1
    }
}

/// The keys of a hop are always well-formed text: no character is cut apart.
pub proof fn law_keys_are_well_formed_text(hop: Seq<char>, i: int)
    requires
        0 <= i < xfcc::fields_of(encode_utf8(hop)).len(),
    ensures
        valid_utf8(xfcc::fields_of(encode_utf8(hop))[i].0),
{
    encode_utf8_valid_utf8(hop);
    lemma_keys_are_valid(encode_utf8(hop), i);
}

proof fn lemma_keys_are_valid(s: Seq<u8>, i: int)
    requires
        valid_utf8(s),
        0 <= i < xfcc::fields_of(s).len(),
    ensures
        valid_utf8(xfcc::fields_of(s)[i].0),
    decreases s.len(),
{
    let k = text::first_index(s, xfcc::EQUALS);
    text::lemma_first_index_bounds(s, xfcc::EQUALS);
    lemma_around_ascii_byte(s, k);
    let area = s.skip(k + 1);
    let rest = xfcc::field_value(area).1;
    let left = xfcc::without_separator(rest);
    xfcc::lemma_field_value_shrinks(area);
    assert(valid_utf8(left)) by {
        if area.len() > 0 && area[0] == xfcc::QUOTE {
            let end = lemma_quoted_run_ends(area.skip(1));
            let p = end + 1;
            assert(area.skip(1).skip(end) =~= area.skip(p));
            if p < area.len() {
                if end > 0 {
                    assert(area.skip(1)[end - 1] == area[p - 1]);
                }
                lemma_around_ascii_byte(area, p - 1);
            } else {
                assert(rest =~= Seq::<u8>::empty());
            }
        } else {
            let end = text::first_index(area, xfcc::SEMICOLON);
            text::lemma_first_index_bounds(area, xfcc::SEMICOLON);
            if end < area.len() {
                lemma_around_ascii_byte(area, end);
                assert(rest.skip(1) =~= area.skip(end + 1));
            } else {
                assert(rest =~= Seq::<u8>::empty());
            }
        }
        if rest.len() > 0 && rest[0] == xfcc::SEMICOLON && valid_utf8(rest) {
            lemma_around_ascii_byte(rest, 0);
        }
    }
    if i > 0 {
        lemma_keys_are_valid(left, i - 1);
    }
}

/// One value in a quoted run, and whether a backslash stands before it.
pub struct Unit<T> {
    pub value: T,
    pub escaped: bool,
}

/// How a character is written in a quoted run, with or without a backslash.
pub open spec fn written_unit(u: Unit<char>) -> Seq<char> {
    if u.escaped {
        seq!['\\', u.value]
    } else {
        seq![u.value]
    }
}

/// Characters as they are written in a quoted run.
pub open spec fn written_run(run: Seq<Unit<char>>) -> Seq<char>
    decreases run.len(),
{
    if run.len() == 0 {
        Seq::empty()
    } else {
        written_run(run.drop_last()) + written_unit(run.last())
    }
}

/// What a quoted run can hold: any character behind a backslash, and any but a quote
/// and a backslash without one.
pub open spec fn is_run(run: Seq<Unit<char>>) -> bool {
    forall|i: int|
        0 <= i < run.len() ==> (#[trigger] run[i]).escaped || (run[i].value != '"' && run[i].value
            != '\\')
}

/// The hops with `more` added to the last.
pub open spec fn last_hop_grown(hops: Seq<Seq<char>>, more: Seq<char>) -> Seq<Seq<char>> {
    hops.drop_last().push(hops.last() + more)
}

proof fn lemma_inside_any_run(before: Seq<char>, run: Seq<Unit<char>>)
    requires
        xfcc::quote_state(before) == QuoteState::Outside,
        is_run(run),
    ensures
        xfcc::hops_of(before.push('"') + written_run(run)) == last_hop_grown(
            xfcc::hops_of(before),
            seq!['"'] + written_run(run),
        ),
        xfcc::quote_state(before.push('"') + written_run(run)) == QuoteState::Quoted,
    decreases run.len(),
{
    let head = before.push('"');
    let init = xfcc::hops_of(before).drop_last();
    let last = xfcc::hops_of(before).last();
    if run.len() == 0 {
        lemma_push_inside(before, '"');
        assert(head + written_run(run) =~= head);
        assert(last + (seq!['"'] + written_run(run)) =~= last.push('"'));
    } else {
        let start = run.drop_last();
        let u = run.last();
        assert forall|i: int| 0 <= i < start.len() implies (#[trigger] start[i]).escaped || (
        start[i].value != '"' && start[i].value != '\\') by {
            assert(start[i] == run[i]);
        }
        assert(run[run.len() - 1].escaped || (u.value != '"' && u.value != '\\'));
        lemma_inside_any_run(before, start);
        let s = head + written_run(start);
        let t = last + (seq!['"'] + written_run(start));
        assert(init.push(t).drop_last() =~= init);
        if u.escaped {
            lemma_push_inside(s, '\\');
            assert(init.push(t.push('\\')).drop_last() =~= init);
            lemma_push_inside(s.push('\\'), u.value);
            assert(s.push('\\').push(u.value) =~= head + written_run(run));
            assert(t.push('\\').push(u.value) =~= last + (seq!['"'] + written_run(run)));
        } else {
            lemma_push_inside(s, u.value);
            assert(s.push(u.value) =~= head + written_run(run));
            assert(t.push(u.value) =~= last + (seq!['"'] + written_run(run)));
        }
    }
}

/// A quoted run stays in its hop, whatever stands behind the backslashes in it, and
/// the text behind its closing quote is outside again. A run that is not closed goes on
/// to the end, a backslash at the very end too.
pub proof fn law_any_quoted_run_stays_in_its_hop(before: Seq<char>, run: Seq<Unit<char>>)
    requires
        xfcc::quote_state(before) == QuoteState::Outside,
        is_run(run),
    ensures
        ({
            let hops = xfcc::hops_of(before);
            let open = seq!['"'] + written_run(run);
            &&& xfcc::hops_of(before + open) == last_hop_grown(hops, open)
            &&& xfcc::hops_of(before + open.push('\\')) == last_hop_grown(hops, open.push('\\'))
            &&& xfcc::hops_of(before + open.push('"')) == last_hop_grown(hops, open.push('"'))
            &&& xfcc::quote_state(before + open.push('"')) == QuoteState::Outside
        }),
{
    let hops = xfcc::hops_of(before);
    let open = seq!['"'] + written_run(run);
    let s = before.push('"') + written_run(run);
    lemma_inside_any_run(before, run);
    assert(before + open =~= s);
    lemma_push_inside(s, '"');
    lemma_push_inside(s, '\\');
    assert(before + open.push('"') =~= s.push('"'));
    assert(before + open.push('\\') =~= s.push('\\'));
    let grown = last_hop_grown(hops, open);
    assert(grown.drop_last() =~= hops.drop_last());
    assert((hops.last() + open).push('"') =~= hops.last() + open.push('"'));
    assert((hops.last() + open).push('\\') =~= hops.last() + open.push('\\'));
}

/// Outside every quoted run, text that holds neither a comma nor a quote stays in its
/// hop and outside. Backslashes there are characters like any other.
pub proof fn law_plain_text_stays_in_its_hop(before: Seq<char>, plain: Seq<char>)
    requires
        xfcc::quote_state(before) == QuoteState::Outside,
        !plain.contains(','),
        !plain.contains('"'),
    ensures
        xfcc::hops_of(before + plain) == last_hop_grown(xfcc::hops_of(before), plain),
        xfcc::quote_state(before + plain) == QuoteState::Outside,
{
    assert forall|i: int| 0 <= i < plain.len() implies plain[i] != ',' && plain[i] != '"' by {
        assert(plain.contains(plain[i]));
    }
    lemma_plain_text(before, plain);
}

/// No text is one hop, which is empty, and is outside every quoted run.
pub proof fn law_no_text_is_one_empty_hop()
    ensures
        xfcc::hops_of(Seq::empty()) == seq![Seq::<char>::empty()],
        xfcc::quote_state(Seq::empty()) == QuoteState::Outside,
{
}

/// Bytes as they are written in a quoted run, each with or without a backslash.
pub open spec fn written_run_bytes(run: Seq<Unit<u8>>) -> Seq<u8>
    decreases run.len(),
{
    if run.len() == 0 {
        Seq::empty()
    } else {
        (if run[0].escaped {
            seq![xfcc::BACKSLASH, run[0].value]
        } else {
            seq![run[0].value]
        }) + written_run_bytes(run.drop_first())
    }
}

/// What a quoted run of bytes can hold.
pub open spec fn is_run_bytes(run: Seq<Unit<u8>>) -> bool {
    forall|i: int|
        0 <= i < run.len() ==> (#[trigger] run[i]).escaped || (run[i].value != 0x22 && run[i].value
            != 0x5c)
}

/// The bytes that a quoted run stands for.
pub open spec fn run_values(run: Seq<Unit<u8>>) -> Seq<u8> {
    run.map_values(|u: Unit<u8>| u.value)
}

/// The value of a quoted run is what stands in it without the backslashes that escape,
/// whichever bytes they escape, up to the closing quote or, where there is none, to the
/// end. A backslash at the very end stands for itself.
pub proof fn law_value_of_any_quoted_run(run: Seq<Unit<u8>>, rest: Seq<u8>)
    requires
        is_run_bytes(run),
    ensures
        xfcc::quoted_value(written_run_bytes(run) + seq![0x22u8] + rest) == (run_values(run), rest),
        xfcc::quoted_value(written_run_bytes(run)) == (run_values(run), Seq::<u8>::empty()),
        xfcc::quoted_value(written_run_bytes(run) + seq![0x5cu8]) == (
            run_values(run).push(0x5c),
            Seq::<u8>::empty(),
        ),
    decreases run.len(),
{
    let closed = written_run_bytes(run) + seq![0x22u8] + rest;
    let open = written_run_bytes(run);
    let hanging = written_run_bytes(run) + seq![0x5cu8];
    let values = run_values(run);
    if run.len() == 0 {
        assert(values =~= Seq::<u8>::empty());
        assert(closed[0] == 0x22);
        assert(closed.skip(1) =~= rest);
        assert(open =~= Seq::<u8>::empty());
        assert(hanging =~= seq![0x5cu8]);
        assert(hanging.skip(1) =~= Seq::<u8>::empty());
        assert(xfcc::quoted_value(hanging.skip(1)) == (Seq::<u8>::empty(), hanging.skip(1)));
        assert(seq![0x5cu8] + Seq::<u8>::empty() =~= values.push(0x5c));
    } else {
        let tail = run.drop_first();
        let b = run[0].value;
        assert forall|i: int| 0 <= i < tail.len() implies (#[trigger] tail[i]).escaped || (
        tail[i].value != 0x22 && tail[i].value != 0x5c) by {
            assert(tail[i] == run[i + 1]);
        }
        law_value_of_any_quoted_run(tail, rest);
        let w = written_run_bytes(tail);
        assert(seq![b] + run_values(tail) =~= values);
        assert(seq![b] + run_values(tail).push(0x5c) =~= values.push(0x5c));
        let n: int = if run[0].escaped {
            2
        } else {
            1
        };
        assert(closed.skip(n) =~= w + seq![0x22u8] + rest);
        assert(open.skip(n) =~= w);
        assert(hanging.skip(n) =~= w + seq![0x5cu8]);
        if run[0].escaped {
            assert(closed[0] == 0x5c && closed[1] == b);
            assert(open[0] == 0x5c && open[1] == b);
            assert(hanging[0] == 0x5c && hanging[1] == b);
        } else {
            assert(run[0].value != 0x22 && run[0].value != 0x5c);
            assert(closed[0] == b && open[0] == b && hanging[0] == b);
        }
    }
}

/// What a hop of one field and more comes to.
proof fn lemma_first_field(k: Seq<u8>, tail: Seq<u8>)
    requires
        !k.contains(0x3d),
    ensures
        xfcc::fields_of(k + seq![0x3du8] + tail) == seq![(k, xfcc::field_value(tail).0)]
            + xfcc::fields_of(xfcc::without_separator(xfcc::field_value(tail).1)),
{
    let s = k + seq![0x3du8] + tail;
    let n = k.len() as int;
    assert forall|j: int| 0 <= j < n implies s[j] != xfcc::EQUALS by {
        assert(s[j] == k[j]);
        assert(k.contains(k[j]));
    }
    assert(s[n] == xfcc::EQUALS);
    text::lemma_first_index(s, xfcc::EQUALS, n);
    assert(s.take(n) =~= k);
    assert(s.skip(n + 1) =~= tail);
}

/// A field with a quoted run is read up to the closing quote. A `;` behind it is
/// dropped; whatever else stands there belongs to the fields that follow.
pub proof fn law_field_with_a_quoted_run(k: Seq<u8>, run: Seq<Unit<u8>>, rest: Seq<u8>)
    requires
        !k.contains(0x3d),
        is_run_bytes(run),
    ensures
        ({
            let field = (k, run_values(run));
            let s = k + seq![0x3du8] + (seq![0x22u8] + written_run_bytes(run));
            &&& xfcc::fields_of(s + seq![0x22u8] + (seq![0x3bu8] + rest)) == seq![field]
                + xfcc::fields_of(rest)
            &&& rest.len() == 0 || rest[0] != 0x3b ==> xfcc::fields_of(s + seq![0x22u8] + rest)
                == seq![field] + xfcc::fields_of(rest)
            &&& xfcc::fields_of(s) == seq![field]
            &&& xfcc::fields_of(s + seq![0x5cu8]) == seq![(k, run_values(run).push(0x5c))]
        }),
{
    let w = written_run_bytes(run);
    let q = seq![0x22u8];
    let s = k + seq![0x3du8] + (q + w);
    let none = Seq::<u8>::empty();
    let more = seq![0x3bu8] + rest;
    law_no_field_without_equals(none);
    // closed, with a separator behind
    let tail = q + (w + q + more);
    assert(s + q + more =~= k + seq![0x3du8] + tail);
    lemma_first_field(k, tail);
    assert(tail.skip(1) =~= w + q + more);
    law_value_of_any_quoted_run(run, more);
    assert(more.skip(1) =~= rest);
    // closed, with something else behind
    let tail = q + (w + q + rest);
    assert(s + q + rest =~= k + seq![0x3du8] + tail);
    lemma_first_field(k, tail);
    assert(tail.skip(1) =~= w + q + rest);
    law_value_of_any_quoted_run(run, rest);
    // not closed
    let tail = q + w;
    lemma_first_field(k, tail);
    assert(tail.skip(1) =~= w);
    assert(seq![(k, run_values(run))] + xfcc::fields_of(none) =~= seq![(k, run_values(run))]);
    // not closed, with a backslash at the end
    let tail = q + (w + seq![0x5cu8]);
    assert(s + seq![0x5cu8] =~= k + seq![0x3du8] + tail);
    lemma_first_field(k, tail);
    assert(tail.skip(1) =~= w + seq![0x5cu8]);
    assert(seq![(k, run_values(run).push(0x5c))] + xfcc::fields_of(none) =~= seq![
        (k, run_values(run).push(0x5c)),
    ]);
}

/// A value without quotes and with no `;` behind it goes on to the end.
pub proof fn law_last_unquoted_value_goes_on_to_the_end(k: Seq<u8>, v: Seq<u8>)
    requires
        !k.contains(0x3d),
        !v.contains(0x3b),
        v.len() > 0 ==> v[0] != 0x22,
    ensures
        xfcc::fields_of(k + seq![0x3du8] + v) == seq![(k, v)],
{
    let none = Seq::<u8>::empty();
    law_no_field_without_equals(none);
    lemma_first_field(k, v);
    let m = v.len() as int;
    assert forall|j: int| 0 <= j < m implies v[j] != xfcc::SEMICOLON by {
        assert(v.contains(v[j]));
    }
    text::lemma_first_index(v, xfcc::SEMICOLON, m);
    assert(v.take(m) =~= v);
    assert(v.skip(m) =~= none);
    assert(seq![(k, v)] + xfcc::fields_of(none) =~= seq![(k, v)]);
}

/// Where there is no `=` there is no field.
pub proof fn law_no_field_without_equals(s: Seq<u8>)
    requires
        !s.contains(0x3d),
    ensures
        xfcc::fields_of(s) == Seq::<(Seq<u8>, Seq<u8>)>::empty(),
{
    assert forall|j: int| 0 <= j < s.len() implies s[j] != xfcc::EQUALS by {
        assert(s.contains(s[j]));
    }
    text::lemma_first_index(s, xfcc::EQUALS, s.len() as int);
}

/// `v` has one character for each of `bytes`, with that byte's number.
pub open spec fn has_numbers(v: Seq<char>, bytes: Seq<u8>) -> bool {
    &&& v.len() == bytes.len()
    &&& forall|j: int| 0 <= j < v.len() ==> #[trigger] v[j] as int == bytes[j] as int
}

/// A text is read from a hop as one character for each byte of its encoding.
pub proof fn law_text_is_read_byte_by_byte(v: Seq<char>)
    ensures
        has_numbers(as_read(v), encode_utf8(v)),
{
}

/// The key of the field at `i`: its text without the white space around it.
pub open spec fn key_at(fields: Seq<(Seq<u8>, Seq<u8>)>, i: int) -> Seq<char> {
    text::trimmed(decode_utf8(fields[i].0))
}

proof fn lemma_field_map_at(fields: Seq<(Seq<u8>, Seq<u8>)>, key: Seq<char>, i: int)
    requires
        forall|j: int| 0 <= j < fields.len() ==> valid_utf8((#[trigger] fields[j]).0),
        key.len() > 0,
        0 <= i < fields.len(),
        key_at(fields, i) == key,
        forall|j: int| i < j < fields.len() ==> #[trigger] key_at(fields, j) != key,
    ensures
        xfcc::field_map(fields).contains_key(key),
        has_numbers(xfcc::field_map(fields)[key], fields[i].1),
    decreases fields.len(),
{
    let last = fields.len() - 1;
    assert(valid_utf8(fields[last].0));
    if i < last {
        let start = fields.drop_last();
        assert(key_at(fields, last) != key);
        assert forall|j: int| 0 <= j < start.len() implies valid_utf8((#[trigger] start[j]).0) by {
            assert(start[j] == fields[j]);
        }
        assert forall|j: int| i < j < start.len() implies #[trigger] key_at(start, j) != key by {
            assert(key_at(fields, j) == key_at(start, j));
        }
        lemma_field_map_at(start, key, i);
    }
}

proof fn lemma_field_map_lacks(fields: Seq<(Seq<u8>, Seq<u8>)>, key: Seq<char>)
    requires
        forall|j: int| 0 <= j < fields.len() ==> valid_utf8((#[trigger] fields[j]).0),
        key.len() == 0 || forall|j: int|
            0 <= j < fields.len() ==> #[trigger] key_at(fields, j) != key,
    ensures
        !xfcc::field_map(fields).contains_key(key),
    decreases fields.len(),
{
    if fields.len() > 0 {
        let last = fields.len() - 1;
        assert(valid_utf8(fields[last].0));
        let start = fields.drop_last();
        assert forall|j: int| 0 <= j < start.len() implies valid_utf8((#[trigger] start[j]).0) by {
            assert(start[j] == fields[j]);
        }
        if key.len() > 0 {
            assert(key_at(fields, last) != key);
            assert forall|j: int| 0 <= j < start.len() implies #[trigger] key_at(start, j) != key by {
                assert(key_at(fields, j) == key_at(start, j));
            }
        }
        lemma_field_map_lacks(start, key);
    }
}

/// A key of a hop leads to the value of the last field with that key, byte by byte.
/// White space around a key does not count.
pub proof fn law_key_leads_to_its_last_field(hop: Seq<char>, key: Seq<char>, i: int)
    requires
        key.len() > 0,
        0 <= i < xfcc::fields_of(encode_utf8(hop)).len(),
        key_at(xfcc::fields_of(encode_utf8(hop)), i) == key,
        forall|j: int|
            i < j < xfcc::fields_of(encode_utf8(hop)).len() ==> #[trigger] key_at(
                xfcc::fields_of(encode_utf8(hop)),
                j,
            ) != key,
    ensures
        xfcc::hop_map(hop).contains_key(key),
        has_numbers(xfcc::hop_map(hop)[key], xfcc::fields_of(encode_utf8(hop))[i].1),
{
    let fields = xfcc::fields_of(encode_utf8(hop));
    assert forall|j: int| 0 <= j < fields.len() implies valid_utf8((#[trigger] fields[j]).0) by {
        law_keys_are_well_formed_text(hop, j);
    }
    lemma_field_map_at(fields, key, i);
}

/// A hop has no key that none of its fields has, and never the empty key.
pub proof fn law_hop_has_no_other_key(hop: Seq<char>, key: Seq<char>)
    requires
        key.len() == 0 || forall|j: int|
            0 <= j < xfcc::fields_of(encode_utf8(hop)).len() ==> #[trigger] key_at(
                xfcc::fields_of(encode_utf8(hop)),
                j,
            ) != key,
    ensures
        !xfcc::hop_map(hop).contains_key(key),
{
    let fields = xfcc::fields_of(encode_utf8(hop));
    assert forall|j: int| 0 <= j < fields.len() implies valid_utf8((#[trigger] fields[j]).0) by {
        law_keys_are_well_formed_text(hop, j);
    }
    lemma_field_map_lacks(fields, key);
}

/// Whether some field has the key `key`.
pub open spec fn has_field(fields: Seq<Field<char>>, key: Seq<char>) -> bool {
    exists|i: int| 0 <= i < fields.len() && (#[trigger] fields[i]).key == key
}

proof fn lemma_written_map_keys(fields: Seq<Field<char>>, key: Seq<char>)
    ensures
        written_map(fields).contains_key(key) <==> has_field(fields, key),
    decreases fields.len(),
{
    if fields.len() > 0 {
        let start = fields.drop_last();
        let n = fields.len() - 1;
        lemma_written_map_keys(start, key);
        if has_field(start, key) {
            let i = choose|i: int| 0 <= i < start.len() && (#[trigger] start[i]).key == key;
            assert(fields[i].key == key);
        }
        if has_field(fields, key) {
            let i = choose|i: int| 0 <= i < fields.len() && (#[trigger] fields[i]).key == key;
            if i < n {
                assert(start[i].key == key);
            }
        }
        if fields[n].key == key {
            assert(has_field(fields, key));
        }
    }
}

/// What a written chain gives is what the hop that counts says in `Subject` or else
/// `subject`, and in `Hash` or else `hash`. No other field of that hop and no other hop
/// gives anything: without the first two there is no subject DN, without the last two no
/// fingerprint, and without all four no details.
pub proof fn law_written_chain_gives_its_subject_and_hash_alone(
    headers: Seq<(Seq<char>, Seq<char>)>,
    header: Seq<char>,
    hops: Seq<Seq<Field<char>>>,
    chain_position: ChainPosition,
    i: int,
)
    requires
        is_chain(hops),
        source::header_value(headers, header) == Some(written_chain(hops)),
    ensures
        ({
            let fields = counting_hop(hops, chain_position);
            let no_subject = !has_field(fields, "Subject"@) && !has_field(fields, "subject"@);
            let no_hash = !has_field(fields, "Hash"@) && !has_field(fields, "hash"@);
            match source::source_details(SourceView::Xfcc { header, chain_position }, headers) {
                None => no_subject && no_hash,
                Some(cert) => {
                    &&& !no_subject || !no_hash
                    &&& cert.source_tag == "xfcc"@
                    &&& no_subject <==> cert.subject_dn is None
                    &&& no_hash <==> cert.fingerprint_sha256 is None
                    &&& is_last_with_key(fields, i, "Subject"@) || (is_last_with_key(
                        fields,
                        i,
                        "subject"@,
                    ) && !has_field(fields, "Subject"@)) ==> cert.subject_dn == Some(
                        as_read(fields[i].value),
                    )
                    &&& is_last_with_key(fields, i, "Hash"@) || (is_last_with_key(
                        fields,
                        i,
                        "hash"@,
                    ) && !has_field(fields, "Hash"@)) ==> cert.fingerprint_sha256 == Some(
                        text::lowercased(as_read(fields[i].value)),
                    )
                },
            }
        }),
{
    let fields = counting_hop(hops, chain_position);
    law_chain_gives_the_details_of_the_chosen_hop(hops, chain_position);
    lemma_written_map_keys(fields, "Subject"@);
    lemma_written_map_keys(fields, "subject"@);
    lemma_written_map_keys(fields, "Hash"@);
    lemma_written_map_keys(fields, "hash"@);
    if is_last_with_key(fields, i, "Subject"@) {
        lemma_written_map_at(fields, i, "Subject"@);
    }
    if is_last_with_key(fields, i, "subject"@) {
        lemma_written_map_at(fields, i, "subject"@);
    }
    if is_last_with_key(fields, i, "Hash"@) {
        lemma_written_map_at(fields, i, "Hash"@);
    }
    if is_last_with_key(fields, i, "hash"@) {
        lemma_written_map_at(fields, i, "hash"@);
    }
}

} // verus!
