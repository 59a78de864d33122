//! What holds of the encoding across calls and inputs, proved from the
//! definitions that the encoder's contracts use.

use vstd::prelude::*;
use crate::line_protocol::{
    backslash_piece, backslashes_doubled, canonical, encode, entry_map, escaped_key, escaped_measurement,
    false_text, field_text, fields_text, head_text, int_text_is_decimal, is_digit, is_float_text,
    is_key_special, key_index, lemma_entry_map_at, line_of, more_fields_text, quote_piece,
    quotes_escaped, sorted_keys, tags_text, text_value_text, timestamp_text, true_text, value_text,
    DataPoint, Entries, PointView, ValueView,
};
use crate::text::{int_text, key_lt, lemma_key_lt_asymmetric};

verus! {

/// Decodes an escaped key or tag value as a line-protocol reader does: a
/// backslash before a comma, an equals sign or a space stands for that
/// character; any other backslash stands for itself.
pub open spec fn unescape_key(e: Seq<char>) -> Seq<char>
    decreases e.len(),
{
    if e.len() == 0 {
        Seq::empty()
    } else if e.len() >= 2 && e[0] == '\\' && is_key_special(e[1]) {
        seq![e[1]] + unescape_key(e.skip(2))
    } else {
        seq![e[0]] + unescape_key(e.drop_first())
    }
}

/// `c` before a decoded text, if there is one.
pub open spec fn prepend(c: char, r: Option<Seq<char>>) -> Option<Seq<char>> {
    match r {
        Some(v) => Some(seq![c] + v),
        None => None,
    }
}

/// Decodes what follows the opening quote of a text field value as a
/// line-protocol reader does: `\\` stands for a backslash and `\"` for a
/// double quote, any other backslash for itself, and an unescaped double
/// quote closes the value, which must end the input.
pub open spec fn parse_text_rest(e: Seq<char>) -> Option<Seq<char>>
    decreases e.len(),
{
    if e.len() == 0 {
        None
    } else if e[0] == '"' {
        if e.len() == 1 {
            Some(Seq::empty())
        } else {
            None
        }
    } else if e.len() >= 2 && e[0] == '\\' && (e[1] == '\\' || e[1] == '"') {
        prepend(e[1], parse_text_rest(e.skip(2)))
    } else {
        prepend(e[0], parse_text_rest(e.drop_first()))
    }
}

/// Decodes a quoted text field value; `None` when it is not one.
pub open spec fn parse_quoted_text(e: Seq<char>) -> Option<Seq<char>> {
    if e.len() > 0 && e[0] == '"' {
        parse_text_rest(e.drop_first())
    } else {
        None
    }
}

/// Every backslash of `s` is followed by a character other than a
/// backslash.
pub open spec fn backslashes_single(s: Seq<char>) -> bool {
    forall|i: int| 0 <= i < s.len() && #[trigger] s[i] == '\\' ==> i + 1 < s.len() && s[i + 1] != '\\'
}

/// Encoding depends on the point alone: equal points give equal results,
/// so repeated encodings of one point are identical.
pub proof fn law_encoding_deterministic(p: DataPoint, q: DataPoint)
    requires
        p@ == q@,
        p@.fields.len() > 0,
    ensures
        encode(p@) == encode(q@),
{
}

/// Two lists of entries, each ordered by key, that hold the same keys with
/// the same values are the same list.
pub proof fn lemma_sorted_entries_unique(s: Entries, t: Entries)
    requires
        sorted_keys(s),
        sorted_keys(t),
        entry_map(s) == entry_map(t),
    ensures
        s == t,
    decreases s.len(),
{
    if s.len() == 0 {
        if t.len() > 0 {
            lemma_entry_map_at(t, 0);
        }
        assert(s =~= t);
    } else {
        lemma_entry_map_at(s, 0);
        if t.len() == 0 {
            assert(!entry_map(t).contains_key(s[0].0));
        }
        lemma_entry_map_at(t, 0);
        let j = key_index(t, s[0].0);
        let i = key_index(s, t[0].0);
        if j > 0 && i > 0 {
            assert(key_lt(t[0].0, t[j].0));
            assert(key_lt(s[0].0, s[i].0));
            lemma_key_lt_asymmetric(s[0].0, t[0].0);
        } else if j > 0 {
            assert(s[0].0 == t[0].0);
        }
        let k = s[0].0;
        assert(s[0] == t[0]);
        let s1 = s.drop_first();
        let t1 = t.drop_first();
        assert forall|k2: Seq<char>| #[trigger] entry_map(s1).contains_key(k2) implies entry_map(
            t1,
        ).contains_key(k2) && entry_map(s1)[k2] == entry_map(t1)[k2] by {
            let a = key_index(s1, k2);
            assert(s[a + 1].0 == k2);
            lemma_entry_map_at(s, a + 1);
            let b = key_index(t, k2);
            if b == 0 {
                assert(key_lt(s[0].0, s[a + 1].0));
                lemma_key_lt_asymmetric(k, k2);
                crate::text::lemma_key_lt_irreflexive(k);
            }
            assert(t1[b - 1].0 == k2);
            lemma_entry_map_at(t, b);
            lemma_entry_map_at(s1, a);
            lemma_entry_map_at(t1, b - 1);
        }
        assert forall|k2: Seq<char>| #[trigger] entry_map(t1).contains_key(k2) implies entry_map(
            s1,
        ).contains_key(k2) by {
            let b = key_index(t1, k2);
            assert(t[b + 1].0 == k2);
            lemma_entry_map_at(t, b + 1);
            let a = key_index(s, k2);
            if a == 0 {
                assert(key_lt(t[0].0, t[b + 1].0));
                crate::text::lemma_key_lt_irreflexive(k);
            }
            assert(s1[a - 1].0 == k2);
        }
        assert(entry_map(s1) =~= entry_map(t1));
        lemma_sorted_entries_unique(s1, t1);
        assert(s =~= seq![s[0]] + s1);
        assert(t =~= seq![t[0]] + t1);
    }
}

/// Tags and fields come out ordered by key whatever the order in which they
/// were set: points in canonical order that hold the same tags and fields
/// (as key/value mappings) encode alike.
pub proof fn law_order_of_insertion_irrelevant(p: PointView, q: PointView)
    requires
        canonical(p),
        canonical(q),
        p.measurement == q.measurement,
        entry_map(p.tags) == entry_map(q.tags),
        entry_map(p.fields) == entry_map(q.fields),
        p.timestamp == q.timestamp,
    ensures
        encode(p) == encode(q),
        p == q,
{
    lemma_sorted_entries_unique(p.tags, q.tags);
    lemma_sorted_entries_unique(p.fields, q.fields);
}

/// The first character of an escaped key: a backslash or the key's own
/// first character, which then is not one that escaping marks.
proof fn lemma_escaped_key_first(s: Seq<char>)
    requires
        s.len() > 0,
    ensures
        escaped_key(s).len() > 0,
        !is_key_special(escaped_key(s)[0]),
{
}

/// A key or tag value, escaped and then decoded, gives back the same text:
/// commas, equals signs and spaces in it survive the trip.
pub proof fn law_key_round_trip(s: Seq<char>)
    ensures
        unescape_key(escaped_key(s)) == s,
    decreases s.len(),
{
    if s.len() > 0 {
        let c = s[0];
        let rest = s.drop_first();
        let e = escaped_key(s);
        let tail = escaped_key(rest);
        law_key_round_trip(rest);
        if is_key_special(c) {
            assert(e =~= seq!['\\', c] + tail);
            assert(e.skip(2) =~= tail);
        } else {
            assert(e =~= seq![c] + tail);
            assert(e.drop_first() =~= tail);
            if rest.len() > 0 {
                lemma_escaped_key_first(rest);
            }
        }
        assert(s =~= seq![c] + rest);
    }
}

/// Escaping the quotes of two texts one after the other escapes the quotes
/// of the two together.
proof fn lemma_quotes_escaped_concat(a: Seq<char>, b: Seq<char>)
    ensures
        quotes_escaped(a + b) == quotes_escaped(a) + quotes_escaped(b),
    decreases a.len(),
{
    if a.len() == 0 {
        assert(a + b =~= b);
        assert(quotes_escaped(a) + quotes_escaped(b) =~= quotes_escaped(b));
    } else {
        lemma_quotes_escaped_concat(a.drop_first(), b);
        assert((a + b).drop_first() =~= a.drop_first() + b);
        assert((a + b)[0] == a[0]);
        assert(quotes_escaped(a + b) =~= quotes_escaped(a) + quotes_escaped(b));
    }
}

proof fn lemma_quotes_escaped_single(c: char)
    ensures
        quotes_escaped(seq![c]) == quote_piece(c),
{
    let one = seq![c];
    assert(one.drop_first() =~= Seq::<char>::empty());
    assert(one[0] == c);
    assert(quotes_escaped(one) == quote_piece(one[0]) + quotes_escaped(one.drop_first()));
    assert(quotes_escaped(Seq::<char>::empty()) == Seq::<char>::empty());
    assert(quotes_escaped(one) =~= quote_piece(c));
}

proof fn lemma_text_rest_round_trip(s: Seq<char>)
    requires
        backslashes_single(s),
    ensures
        parse_text_rest(quotes_escaped(backslashes_doubled(s)) + seq!['"']) == Some(s),
    decreases s.len(),
{
    let e = quotes_escaped(backslashes_doubled(s)) + seq!['"'];
    if s.len() == 0 {
        assert(e =~= seq!['"']);
    } else {
        let c = s[0];
        let rest = s.drop_first();
        let tail = quotes_escaped(backslashes_doubled(rest)) + seq!['"'];
        assert forall|i: int| 0 <= i < rest.len() && #[trigger] rest[i] == '\\' implies i + 1
            < rest.len() && rest[i + 1] != '\\' by {
            assert(s[i + 1] == '\\');
        }
        lemma_text_rest_round_trip(rest);
        lemma_quotes_escaped_concat(backslash_piece(s), backslashes_doubled(rest));
        let head = quotes_escaped(backslash_piece(s));
        assert(e =~= head + tail);
        if c == '"' {
            let bp = backslash_piece(s);
            assert(bp =~= seq!['"']);
            assert(bp.drop_first() =~= Seq::<char>::empty());
            assert(quotes_escaped(bp) == quote_piece(bp[0]) + quotes_escaped(bp.drop_first()));
            assert(head =~= seq!['\\', '"']);
            assert(e.skip(2) =~= tail);
        } else if c == '\\' && rest.len() > 0 && rest[0] == '"' {
            let bp = backslash_piece(s);
            let bp1 = bp.drop_first();
            assert(bp =~= seq!['\\', '\\']);
            assert(bp1 =~= seq!['\\']);
            assert(bp1.drop_first() =~= Seq::<char>::empty());
            assert(quotes_escaped(bp1) == quote_piece(bp1[0]) + quotes_escaped(bp1.drop_first()));
            assert(quotes_escaped(bp) == quote_piece(bp[0]) + quotes_escaped(bp1));
            assert(head =~= seq!['\\', '\\']);
            assert(e.skip(2) =~= tail);
        } else {
            assert(backslash_piece(s) =~= seq![c]);
            lemma_quotes_escaped_single(c);
            assert(head =~= seq![c]);
            assert(e.drop_first() =~= tail);
            if c == '\\' {
                assert(s[0] == '\\');
                assert(rest[0] != '\\');
                let r2 = rest.drop_first();
                lemma_quotes_escaped_concat(backslash_piece(rest), backslashes_doubled(r2));
                assert(backslash_piece(rest) =~= seq![rest[0]]);
                lemma_quotes_escaped_single(rest[0]);
                assert(tail[0] == rest[0]);
            }
        }
        assert(s =~= seq![c] + rest);
    }
}

/// A text field value in which every backslash is followed by a character
/// other than a backslash, as it stands on the wire, decodes to the same
/// text.
pub proof fn law_text_round_trip(s: Seq<char>)
    requires
        backslashes_single(s),
    ensures
        parse_quoted_text(text_value_text(s)) == Some(s),
{
    lemma_text_rest_round_trip(s);
    assert(text_value_text(s).drop_first() =~= quotes_escaped(backslashes_doubled(s)) + seq![
        '"',
    ]);
}

/// Integer values end in `i` after their decimal digits; float values
/// (decimal renderings) never end in `i`; boolean values are exactly `true`
/// or `false`.
pub proof fn law_value_kinds(v: ValueView)
    ensures
        v matches ValueView::Integer(n) ==> value_text(v) == int_text(n as int).push('i')
            && value_text(v).last() == 'i',
        v matches ValueView::Float(t) ==> (is_float_text(t) ==> value_text(v).len() > 0
            && value_text(v).last() != 'i'),
        v matches ValueView::Boolean(b) ==> value_text(v) == (if b {
            true_text()
        } else {
            false_text()
        }),
{
    if let ValueView::Float(t) = v {
        if is_float_text(t) {
            if t.len() > 0 && t[0] == '-' {
                let u = t.drop_first();
                assert(is_digit(u[u.len() - 1]));
                assert(t.last() == u[u.len() - 1]);
            } else {
                assert(is_digit(t[t.len() - 1]));
            }
        }
    }
}

/// The fields after the first, split around the one at position `j`.
proof fn lemma_more_fields_split(t: Entries, j: int)
    requires
        0 <= j < t.len(),
    ensures
        more_fields_text(t) == more_fields_text(t.take(j)) + seq![','] + field_text(t[j])
            + more_fields_text(t.skip(j + 1)),
    decreases j,
{
    if j == 0 {
        assert(t.take(0) =~= Seq::<(Seq<char>, ValueView)>::empty());
        assert(t.skip(1) =~= t.drop_first());
    } else {
        lemma_more_fields_split(t.drop_first(), j - 1);
        assert(t.drop_first().take(j - 1) =~= t.take(j).drop_first());
        assert(t.drop_first().skip(j) =~= t.skip(j + 1));
        assert(t.take(j)[0] == t[0]);
        assert(t.drop_first()[j - 1] == t[j]);
    }
}

/// What comes before the separator of the field at position `i`.
pub open spec fn field_lead(p: PointView, i: int) -> Seq<char> {
    let m = escaped_measurement(p.measurement) + tags_text(p.tags);
    if i == 0 {
        m
    } else {
        m + seq![' '] + field_text(p.fields[0]) + more_fields_text(p.fields.drop_first().take(i - 1))
    }
}

/// What comes after the field at position `i`.
pub open spec fn field_trail(p: PointView, i: int) -> Seq<char> {
    more_fields_text(p.fields.skip(i + 1)) + timestamp_text(p.timestamp) + seq!['\n']
}

/// Each field stands in the line as `key=value` (see [`value_text`] for the
/// value), right after a space when it is the first field and after a comma
/// otherwise.
pub proof fn law_field_in_line(p: PointView, i: int)
    requires
        0 <= i < p.fields.len(),
    ensures
        line_of(p) == field_lead(p, i) + seq![if i == 0 {
            ' '
        } else {
            ','
        }] + escaped_key(p.fields[i].0) + seq!['='] + value_text(p.fields[i].1) + field_trail(p, i),
{
    let f = p.fields;
    let m = escaped_measurement(p.measurement) + tags_text(p.tags);
    let end = timestamp_text(p.timestamp) + seq!['\n'];
    let token = escaped_key(f[i].0) + seq!['='] + value_text(f[i].1);
    let sep = seq![if i == 0 {
        ' '
    } else {
        ','
    }];
    assert(token == field_text(f[i]));
    assert(line_of(p) == m + seq![' '] + fields_text(f) + end);
    assert(fields_text(f) == field_text(f[0]) + more_fields_text(f.drop_first()));
    if i == 0 {
        assert(f.drop_first() =~= f.skip(1));
        assert(field_trail(p, i) == more_fields_text(f.drop_first()) + end);
        assert(line_of(p) =~= m + sep + token + field_trail(p, i));
    } else {
        let t = f.drop_first();
        lemma_more_fields_split(t, i - 1);
        assert(t[i - 1] == f[i]);
        assert(t.skip(i) =~= f.skip(i + 1));
        let lead = field_lead(p, i);
        assert(lead == m + seq![' '] + field_text(f[0]) + more_fields_text(t.take(i - 1)));
        assert(field_trail(p, i) == more_fields_text(t.skip(i)) + end);
        assert(line_of(p) =~= lead + sep + token + field_trail(p, i));
    }
}

/// The tags of two lists one after the other are the tags of the two
/// together.
proof fn lemma_tags_text_concat(a: Entries, b: Entries)
    ensures
        tags_text(a + b) == tags_text(a) + tags_text(b),
    decreases a.len(),
{
    if a.len() == 0 {
        assert(a + b =~= b);
        assert(tags_text(a) + tags_text(b) =~= tags_text(b));
    } else {
        lemma_tags_text_concat(a.drop_first(), b);
        assert((a + b).drop_first() =~= a.drop_first() + b);
        assert((a + b)[0] == a[0]);
        assert(tags_text(a + b) =~= tags_text(a) + tags_text(b));
    }
}

/// Fields after the first, of two lists one after the other.
proof fn lemma_more_fields_concat(a: Entries, b: Entries)
    ensures
        more_fields_text(a + b) == more_fields_text(a) + more_fields_text(b),
    decreases a.len(),
{
    if a.len() == 0 {
        assert(a + b =~= b);
        assert(more_fields_text(a) + more_fields_text(b) =~= more_fields_text(b));
    } else {
        lemma_more_fields_concat(a.drop_first(), b);
        assert((a + b).drop_first() =~= a.drop_first() + b);
        assert((a + b)[0] == a[0]);
        assert(more_fields_text(a + b) =~= more_fields_text(a) + more_fields_text(b));
    }
}

/// What comes before the tag at position `i`.
pub open spec fn tag_lead(p: PointView, i: int) -> Seq<char> {
    escaped_measurement(p.measurement) + tags_text(p.tags.take(i))
}

/// What comes after the tag at position `i`.
pub open spec fn tag_trail(p: PointView, i: int) -> Seq<char> {
    tags_text(p.tags.skip(i + 1)) + seq![' '] + fields_text(p.fields) + timestamp_text(
        p.timestamp,
    ) + seq!['\n']
}

/// Each text tag stands in the line as `,key=value`, and in a point in
/// canonical order a tag further on in the line has a greater key: the
/// keys read from the line, in order, increase strictly.
pub proof fn law_tag_in_line(p: PointView, i: int, j: int)
    requires
        canonical(p),
        0 <= i < j < p.tags.len(),
    ensures
        p.tags[i].1 matches ValueView::Text(v) ==> line_of(p) == tag_lead(p, i) + seq![',']
            + escaped_key(p.tags[i].0) + seq!['='] + escaped_key(v) + tag_trail(p, i),
        tag_lead(p, i).len() < tag_lead(p, j).len(),
        key_lt(p.tags[i].0, p.tags[j].0),
{
    let t = p.tags;
    assert(t =~= t.take(i) + (seq![t[i]] + t.skip(i + 1)));
    lemma_tags_text_concat(t.take(i), seq![t[i]] + t.skip(i + 1));
    assert((seq![t[i]] + t.skip(i + 1)).drop_first() =~= t.skip(i + 1));
    assert(line_of(p) =~= tag_lead(p, i) + tags_text(seq![t[i]] + t.skip(i + 1)) + seq![' ']
        + fields_text(p.fields) + timestamp_text(p.timestamp) + seq!['\n']);
    assert(t.take(j) =~= t.take(i) + t.subrange(i, j));
    lemma_tags_text_concat(t.take(i), t.subrange(i, j));
    assert(tags_text(t.subrange(i, j)).len() > 0);
}

/// In a point in canonical order a field further on in the line has a
/// greater key: the keys read from the line, in order, increase strictly.
pub proof fn law_fields_in_key_order(p: PointView, i: int, j: int)
    requires
        canonical(p),
        0 <= i < j < p.fields.len(),
    ensures
        field_lead(p, i).len() < field_lead(p, j).len(),
        key_lt(p.fields[i].0, p.fields[j].0),
{
    let t = p.fields.drop_first();
    if i > 0 {
        assert(t.take(j - 1) =~= t.take(i - 1) + t.subrange(i - 1, j - 1));
        lemma_more_fields_concat(t.take(i - 1), t.subrange(i - 1, j - 1));
        assert(more_fields_text(t.subrange(i - 1, j - 1)).len() > 0);
    }
}

/// Without a timestamp the line ends right after the fields; with one it
/// ends in exactly one space, the decimal value, and the newline.
pub proof fn law_timestamp_segment(p: PointView)
    ensures
        head_text(p) == head_text(PointView { timestamp: None, ..p }),
        p.timestamp is None ==> line_of(p) == head_text(p) + seq!['\n'],
        p.timestamp matches Some(n) ==> line_of(p) == head_text(p) + seq![' '] + int_text(n as int)
            + seq!['\n'],
        p.timestamp matches Some(n) ==> int_text_is_decimal(int_text(n as int)),
{
    match p.timestamp {
        Some(n) => {
            crate::line_protocol::lemma_int_text_is_decimal(n as int);
        },
        None => {
            assert(line_of(p) =~= head_text(p) + seq!['\n']);
        },
    }
}

} // verus!
