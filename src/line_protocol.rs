//! The data-point model and its encoding as one line of the line protocol:
//! `measurement[,tag=value...] field=value[,field=value...] [timestamp]\n`.

use vstd::prelude::*;
use crate::text::{
    chars_of, digits, int_text, key_less, key_lt, lemma_key_lt_irreflexive, lemma_key_lt_total,
    lemma_key_lt_transitive, push_int,
};

verus! {

/// A value of a tag or of a field.
pub enum Value {
    String(String),
    Integer(i64),
    /// A floating-point value, held as its decimal rendering (the text that
    /// `f64`'s `Display` writes for a finite number, such as `1.2345`): the
    /// library itself computes with no floating-point numbers.
    Float(String),
    Boolean(bool),
}

/// What a [`Value`] holds, as mathematical values.
pub enum ValueView {
    Text(Seq<char>),
    Integer(i64),
    Float(Seq<char>),
    Boolean(bool),
}

impl View for Value {
    type V = ValueView;

    open spec fn view(&self) -> ValueView {
        match self {
            Value::String(s) => ValueView::Text(s@),
            Value::Integer(n) => ValueView::Integer(*n),
            Value::Float(t) => ValueView::Float(t@),
            Value::Boolean(b) => ValueView::Boolean(*b),
        }
    }
}

/// The tags or the fields of a point: keys with their values, in order.
pub type Entries = Seq<(Seq<char>, ValueView)>;

/// The entries of a vector of key/value pairs, as mathematical values.
pub open spec fn entries_view(v: Seq<(String, Value)>) -> Entries {
    v.map_values(|e: (String, Value)| (e.0@, e.1@))
}

/// Keys strictly increasing in the order of keys (so also unique).
pub open spec fn sorted_keys(s: Entries) -> bool {
    forall|i: int, j: int| 0 <= i < j < s.len() ==> key_lt(#[trigger] s[i].0, #[trigger] s[j].0)
}

/// A position of `k` among the keys of `s`, if it is there.
pub open spec fn key_index(s: Entries, k: Seq<char>) -> int {
    choose|i: int| 0 <= i < s.len() && s[i].0 == k
}

/// The mapping from keys to values that a list of entries holds.
pub open spec fn entry_map(s: Entries) -> Map<Seq<char>, ValueView> {
    Map::new(
        |k: Seq<char>| exists|i: int| 0 <= i < s.len() && s[i].0 == k,
        |k: Seq<char>| s[key_index(s, k)].1,
    )
}

/// A data point as mathematical values.
pub struct PointView {
    pub measurement: Seq<char>,
    pub tags: Entries,
    pub fields: Entries,
    pub timestamp: Option<i64>,
}

/// Tags and fields in canonical order: by key, each key once.
pub open spec fn canonical(p: PointView) -> bool {
    sorted_keys(p.tags) && sorted_keys(p.fields)
}

/// One sample of a time series: a measurement name, tags, fields and an
/// optional timestamp. Tags and fields are kept ordered by key.
pub struct DataPoint {
    measurement: String,
    tags: Vec<(String, Value)>,
    fields: Vec<(String, Value)>,
    timestamp: Option<i64>,
}

impl View for DataPoint {
    type V = PointView;

    closed spec fn view(&self) -> PointView {
        PointView {
            measurement: self.measurement@,
            tags: entries_view(self.tags@),
            fields: entries_view(self.fields@),
            timestamp: self.timestamp,
        }
    }
}

// ---------------------------------------------------------------------------
// Escaping

/// The escaped form of one character of a measurement name.
pub open spec fn measurement_piece(c: char) -> Seq<char> {
    if c == ',' || c == ' ' {
        seq!['\\', c]
    } else {
        seq![c]
    }
}

/// A measurement name with its commas and spaces escaped by a backslash.
pub open spec fn escaped_measurement(s: Seq<char>) -> Seq<char>
    decreases s.len(),
{
    if s.len() == 0 {
        Seq::empty()
    } else {
        measurement_piece(s[0]) + escaped_measurement(s.drop_first())
    }
}

/// The characters that a backslash escapes in keys and tag values.
pub open spec fn is_key_special(c: char) -> bool {
    c == ',' || c == '=' || c == ' '
}

/// The escaped form of one character of a key or a tag value.
pub open spec fn key_piece(c: char) -> Seq<char> {
    if is_key_special(c) {
        seq!['\\', c]
    } else {
        seq![c]
    }
}

/// A key or a tag value with its commas, equals signs and spaces escaped by
/// a backslash.
pub open spec fn escaped_key(s: Seq<char>) -> Seq<char>
    decreases s.len(),
{
    if s.len() == 0 {
        Seq::empty()
    } else {
        key_piece(s[0]) + escaped_key(s.drop_first())
    }
}

/// The escaped form of one character inside a quoted text field value: a
/// double quote gets a backslash before it.
pub open spec fn quote_piece(c: char) -> Seq<char> {
    if c == '"' {
        seq!['\\', '"']
    } else {
        seq![c]
    }
}

/// A text with a backslash put before each double quote.
pub open spec fn quotes_escaped(s: Seq<char>) -> Seq<char>
    decreases s.len(),
{
    if s.len() == 0 {
        Seq::empty()
    } else {
        quote_piece(s[0]) + quotes_escaped(s.drop_first())
    }
}

/// A text in double quotes, with the double quotes inside escaped.
pub open spec fn quoted_text(s: Seq<char>) -> Seq<char> {
    seq!['"'] + quotes_escaped(s) + seq!['"']
}

/// The first character of a text, doubled when it is a backslash that
/// stands before a double quote.
pub open spec fn backslash_piece(s: Seq<char>) -> Seq<char>
    recommends
        s.len() > 0,
{
    if s[0] == '\\' && s.len() > 1 && s[1] == '"' {
        seq!['\\', '\\']
    } else {
        seq![s[0]]
    }
}

/// A text in which each backslash that stands before a double quote is
/// doubled, so that once the quote is escaped the backslash stays a
/// backslash on the wire.
pub open spec fn backslashes_doubled(s: Seq<char>) -> Seq<char>
    decreases s.len(),
{
    if s.len() == 0 {
        Seq::empty()
    } else {
        backslash_piece(s) + backslashes_doubled(s.drop_first())
    }
}

/// A text field value as it stands on the wire: its backslashes before
/// double quotes doubled, then quoted with its double quotes escaped.
pub open spec fn text_value_text(s: Seq<char>) -> Seq<char> {
    quoted_text(backslashes_doubled(s))
}

fn escape_by_key_rules(value: &str, also_equals: bool) -> (r: String)
    ensures
        also_equals ==> r@ == escaped_key(value@),
        !also_equals ==> r@ == escaped_measurement(value@),
{
    let chars = chars_of(value);
    let ghost s = value@;
    let mut out = String::new();
    let mut i: usize = 0;
    proof {
        assert(s.skip(0) =~= s);
    }
    while i < chars.len()
        invariant
            chars@ == s,
            i <= s.len(),
            also_equals ==> out@ + escaped_key(s.skip(i as int)) == escaped_key(s),
            !also_equals ==> out@ + escaped_measurement(s.skip(i as int)) == escaped_measurement(
                s,
            ),
        decreases s.len() - i,
    {
        let c = chars[i];
        proof {
            assert(s.skip(i as int)[0] == c);
            assert(s.skip(i as int).drop_first() =~= s.skip(i + 1));
        }
        if c == ',' || c == ' ' || (also_equals && c == '=') {
            out.push('\\');
        }
        out.push(c);
        proof {
            if also_equals {
                assert(out@ + escaped_key(s.skip(i + 1)) =~= escaped_key(s));
            } else {
                assert(out@ + escaped_measurement(s.skip(i + 1)) =~= escaped_measurement(s));
            }
        }
        i = i + 1;
    }
    proof {
        assert(s.skip(i as int) =~= Seq::<char>::empty());
        assert(out@ =~= out@ + Seq::<char>::empty());
    }
    out
}

/// Escapes a measurement name: `,` becomes `\,` and a space `\ `.
pub fn escape_measurement(value: &str) -> (r: String)
    ensures
        r@ == escaped_measurement(value@),
{
    escape_by_key_rules(value, false)
}

/// Escapes a key or a tag value: `,` becomes `\,`, `=` becomes `\=` and a
/// space `\ `.
pub fn escape_keys_and_tags(value: &str) -> (r: String)
    ensures
        r@ == escaped_key(value@),
{
    escape_by_key_rules(value, true)
}

/// Renders a text field value: in double quotes, each double quote inside
/// escaped as `\"`.
pub fn escape_string_field_value(value: &str) -> (r: String)
    ensures
        r@ == quoted_text(value@),
{
    let chars = chars_of(value);
    let ghost s = value@;
    let mut out = String::new();
    out.push('"');
    let ghost start = out@;
    let mut i: usize = 0;
    proof {
        assert(s.skip(0) =~= s);
    }
    while i < chars.len()
        invariant
            chars@ == s,
            i <= s.len(),
            out@ + quotes_escaped(s.skip(i as int)) == start + quotes_escaped(s),
            start == seq!['"'],
        decreases s.len() - i,
    {
        let c = chars[i];
        proof {
            assert(s.skip(i as int)[0] == c);
            assert(s.skip(i as int).drop_first() =~= s.skip(i + 1));
        }
        if c == '"' {
            out.push('\\');
        }
        out.push(c);
        proof {
            assert(out@ + quotes_escaped(s.skip(i + 1)) =~= start + quotes_escaped(s));
        }
        i = i + 1;
    }
    out.push('"');
    proof {
        assert(s.skip(i as int) =~= Seq::<char>::empty());
        assert(out@ =~= quoted_text(s));
    }
    out
}

/// Doubles each backslash of `value` that stands before a double quote (see
/// [`backslashes_doubled`]); every other character is kept.
pub fn double_backslashes_before_quotes(value: &str) -> (r: String)
    ensures
        r@ == backslashes_doubled(value@),
{
    let chars = chars_of(value);
    let ghost s = value@;
    let mut out = String::new();
    let mut i: usize = 0;
    proof {
        assert(s.skip(0) =~= s);
    }
    while i < chars.len()
        invariant
            chars@ == s,
            i <= s.len(),
            out@ + backslashes_doubled(s.skip(i as int)) == backslashes_doubled(s),
        decreases s.len() - i,
    {
        let c = chars[i];
        let ghost rest = s.skip(i as int);
        proof {
            assert(rest[0] == c);
            assert(rest.drop_first() =~= s.skip(i + 1));
            if i + 1 < s.len() {
                assert(rest[1] == s[i + 1]);
            }
        }
        if c == '\\' && i + 1 < chars.len() && chars[i + 1] == '"' {
            out.push('\\');
        }
        out.push(c);
        proof {
            assert(out@ + backslashes_doubled(s.skip(i + 1)) =~= backslashes_doubled(s));
        }
        i = i + 1;
    }
    proof {
        assert(s.skip(i as int) =~= Seq::<char>::empty());
        assert(out@ =~= out@ + Seq::<char>::empty());
    }
    out
}

// ---------------------------------------------------------------------------
// The line

/// One tag as it stands on the wire: `,key=value`.
pub open spec fn tag_text(e: (Seq<char>, ValueView)) -> Seq<char> {
    seq![','] + escaped_key(e.0) + seq!['='] + match e.1 {
        ValueView::Text(t) => escaped_key(t),
        _ => Seq::empty(),
    }
}

/// All tags, in the order given.
pub open spec fn tags_text(s: Entries) -> Seq<char>
    decreases s.len(),
{
    if s.len() == 0 {
        Seq::empty()
    } else {
        tag_text(s[0]) + tags_text(s.drop_first())
    }
}

/// The literal `true`.
pub open spec fn true_text() -> Seq<char> {
    seq!['t', 'r', 'u', 'e']
}

/// The literal `false`.
pub open spec fn false_text() -> Seq<char> {
    seq!['f', 'a', 'l', 's', 'e']
}

/// A field value as it stands on the wire.
pub open spec fn value_text(v: ValueView) -> Seq<char> {
    match v {
        ValueView::Text(t) => text_value_text(t),
        ValueView::Integer(n) => int_text(n as int).push('i'),
        ValueView::Float(t) => t,
        ValueView::Boolean(b) => if b {
            true_text()
        } else {
            false_text()
        },
    }
}

/// One field as it stands on the wire: `key=value`.
pub open spec fn field_text(e: (Seq<char>, ValueView)) -> Seq<char> {
    escaped_key(e.0) + seq!['='] + value_text(e.1)
}

/// Fields after the first, each after a comma.
pub open spec fn more_fields_text(s: Entries) -> Seq<char>
    decreases s.len(),
{
    if s.len() == 0 {
        Seq::empty()
    } else {
        seq![','] + field_text(s[0]) + more_fields_text(s.drop_first())
    }
}

/// All fields, separated by commas.
pub open spec fn fields_text(s: Entries) -> Seq<char> {
    if s.len() == 0 {
        Seq::empty()
    } else {
        field_text(s[0]) + more_fields_text(s.drop_first())
    }
}

/// The timestamp segment: a space and the decimal value, or nothing.
pub open spec fn timestamp_text(t: Option<i64>) -> Seq<char> {
    match t {
        Some(n) => seq![' '] + int_text(n as int),
        None => Seq::empty(),
    }
}

/// The line up to the timestamp segment.
pub open spec fn head_text(p: PointView) -> Seq<char> {
    escaped_measurement(p.measurement) + tags_text(p.tags) + seq![' '] + fields_text(p.fields)
}

/// The encoded line of a point, newline included.
pub open spec fn line_of(p: PointView) -> Seq<char> {
    head_text(p) + timestamp_text(p.timestamp) + seq!['\n']
}

/// Why a point cannot be encoded.
#[derive(Clone, Copy, Debug, PartialEq, Eq, Structural)]
pub enum EncodeError {
    /// The measurement name is empty.
    EmptyMeasurement,
    /// The point has no field; the protocol asks for at least one.
    NoFields,
    /// A tag holds a value other than text.
    NonTextTag,
    /// A float field holds text that is not a decimal number.
    InvalidFloat,
}

/// A decimal digit.
pub open spec fn is_digit(c: char) -> bool {
    '0' <= c && c <= '9'
}

/// Digits with at most one decimal point, which stands between digits.
pub open spec fn is_unsigned_decimal(u: Seq<char>) -> bool {
    &&& u.len() > 0
    &&& is_digit(u[0])
    &&& is_digit(u[u.len() - 1])
    &&& forall|i: int| 0 <= i < u.len() ==> is_digit(#[trigger] u[i]) || u[i] == '.'
    &&& forall|i: int, j: int|
        0 <= i < j < u.len() && #[trigger] u[i] == '.' ==> #[trigger] u[j] != '.'
}

/// The decimal rendering of a finite float: an optional minus sign, then
/// digits with at most one decimal point between digits.
pub open spec fn is_float_text(t: Seq<char>) -> bool {
    if t.len() > 0 && t[0] == '-' {
        is_unsigned_decimal(t.drop_first())
    } else {
        is_unsigned_decimal(t)
    }
}

/// A decimal integer: an optional minus sign, then one or more digits.
pub open spec fn int_text_is_decimal(t: Seq<char>) -> bool {
    let u = if t.len() > 0 && t[0] == '-' {
        t.drop_first()
    } else {
        t
    };
    u.len() > 0 && forall|i: int| 0 <= i < u.len() ==> is_digit(#[trigger] u[i])
}

proof fn lemma_digits_are_digits(n: nat)
    ensures
        digits(n).len() > 0,
        forall|i: int| 0 <= i < digits(n).len() ==> is_digit(#[trigger] digits(n)[i]),
    decreases n,
{
    if n >= 10 {
        lemma_digits_are_digits(n / 10);
    }
}

/// The decimal rendering of an integer is a decimal integer.
pub proof fn lemma_int_text_is_decimal(n: int)
    ensures
        int_text_is_decimal(int_text(n)),
{
    if n < 0 {
        lemma_digits_are_digits((-n) as nat);
        assert((seq!['-'] + digits((-n) as nat)).drop_first() =~= digits((-n) as nat));
    } else {
        lemma_digits_are_digits(n as nat);
    }
}

/// Every tag holds text.
pub open spec fn all_tags_text(s: Entries) -> bool {
    forall|i: int| 0 <= i < s.len() ==> (#[trigger] s[i]).1 is Text
}

/// Every float field holds a decimal number.
pub open spec fn floats_valid(s: Entries) -> bool {
    forall|i: int|
        0 <= i < s.len() ==> ((#[trigger] s[i]).1 matches ValueView::Float(t) ==> is_float_text(t))
}

/// What keeps a point from being encoded, checked in this order.
pub open spec fn encode_error(p: PointView) -> Option<EncodeError> {
    if p.measurement.len() == 0 {
        Some(EncodeError::EmptyMeasurement)
    } else if p.fields.len() == 0 {
        Some(EncodeError::NoFields)
    } else if !all_tags_text(p.tags) {
        Some(EncodeError::NonTextTag)
    } else if !floats_valid(p.fields) {
        Some(EncodeError::InvalidFloat)
    } else {
        None
    }
}

/// The result of encoding a point.
pub open spec fn encode(p: PointView) -> Result<Seq<char>, EncodeError> {
    match encode_error(p) {
        Some(e) => Err(e),
        None => Ok(line_of(p)),
    }
}

/// Whether `t` is the decimal rendering of a finite float.
pub fn check_float_text(t: &str) -> (r: bool)
    ensures
        r == is_float_text(t@),
{
    let chars = chars_of(t);
    let start: usize = if chars.len() > 0 && chars[0] == '-' {
        1
    } else {
        0
    };
    let ghost u = if start == 1 {
        t@.drop_first()
    } else {
        t@
    };
    assert(is_float_text(t@) == is_unsigned_decimal(u));
    if start >= chars.len() {
        return false;
    }
    let n = chars.len();
    let mut i: usize = start;
    let mut seen_point = false;
    let ghost mut point: int = -1;
    while i < n
        invariant
            chars@ == t@,
            n == chars@.len(),
            start <= i <= n,
            start < n,
            u == t@.subrange(start as int, n as int),
            forall|j: int| 0 <= j < i - start ==> is_digit(#[trigger] u[j]) || u[j] == '.',
            forall|j: int| 0 <= j < i - start && #[trigger] u[j] == '.' ==> j == point,
            seen_point <==> (0 <= point < i - start),
            0 <= point ==> u[point] == '.',
            -1 <= point,
            is_float_text(t@) == is_unsigned_decimal(u),
        decreases n - i,
    {
        let c = chars[i];
        assert(u[i - start] == c);
        if c == '.' {
            if seen_point {
                assert(u[point] == '.' && u[i - start] == '.' && point < i - start);
                assert(!is_unsigned_decimal(u));
                return false;
            }
            seen_point = true;
            proof {
                point = i - start;
            }
        } else if !('0' <= c && c <= '9') {
            assert(!is_digit(u[i - start]) && u[i - start] != '.');
            assert(!is_unsigned_decimal(u));
            return false;
        }
        i = i + 1;
    }
    let first = chars[start];
    let last = chars[n - 1];
    assert(u[0] == first);
    assert(u[u.len() - 1] == last);
    '0' <= first && first <= '9' && '0' <= last && last <= '9'
}

fn push_value(line: &mut String, value: &Value)
    ensures
        final(line)@ == old(line)@ + value_text(value@),
{
    match value {
        Value::String(t) => {
            let protected = double_backslashes_before_quotes(t.as_str());
            let quoted = escape_string_field_value(protected.as_str());
            line.append(quoted.as_str());
        },
        Value::Integer(n) => {
            push_int(line, *n);
            line.push('i');
            proof {
                assert(final(line)@ =~= old(line)@ + value_text(value@));
            }
        },
        Value::Float(t) => {
            line.append(t.as_str());
        },
        Value::Boolean(b) => {
            if *b {
                line.append("true");
                proof {
                    reveal_strlit("true");
                    assert("true"@ =~= true_text());
                }
            } else {
                line.append("false");
                proof {
                    reveal_strlit("false");
                    assert("false"@ =~= false_text());
                }
            }
        },
    }
}

fn push_field(line: &mut String, entry: &(String, Value))
    ensures
        final(line)@ == old(line)@ + field_text((entry.0@, entry.1@)),
{
    let key = escape_keys_and_tags(entry.0.as_str());
    line.append(key.as_str());
    line.push('=');
    push_value(line, &entry.1);
    proof {
        assert(final(line)@ =~= old(line)@ + field_text((entry.0@, entry.1@)));
    }
}

/// In sorted entries, the map gives each key the value stored with it.
pub proof fn lemma_entry_map_at(s: Entries, i: int)
    requires
        sorted_keys(s),
        0 <= i < s.len(),
    ensures
        entry_map(s).contains_key(s[i].0),
        entry_map(s)[s[i].0] == s[i].1,
{
    let k = s[i].0;
    assert(exists|j: int| 0 <= j < s.len() && s[j].0 == k);
    let j = key_index(s, k);
    assert(entry_map(s)[k] == s[j].1);
    if j < i {
        assert(key_lt(s[j].0, s[i].0));
        lemma_key_lt_irreflexive(k);
    } else if i < j {
        assert(key_lt(s[i].0, s[j].0));
        lemma_key_lt_irreflexive(k);
    }
}

/// A map that holds exactly the keys of the entries, each with the value
/// stored with it, is the map of the entries.
pub proof fn lemma_entry_map_from(s: Entries, m: Map<Seq<char>, ValueView>)
    requires
        forall|k: Seq<char>|
            m.contains_key(k) <==> exists|i: int| 0 <= i < s.len() && #[trigger] s[i].0 == k,
        forall|i: int| 0 <= i < s.len() ==> m[(#[trigger] s[i]).0] == s[i].1,
    ensures
        entry_map(s) == m,
{
    assert forall|k: Seq<char>| #[trigger] entry_map(s).contains_key(k) implies entry_map(s)[k]
        == m[k] by {
        let j = key_index(s, k);
        assert(m[s[j].0] == s[j].1);
    }
    assert(entry_map(s) =~= m);
}

/// Puts `value` under `key` in sorted entries: in place of the value that
/// the key had, or as a new entry at the key's place in the order.
fn insert_entry(entries: &mut Vec<(String, Value)>, key: String, value: Value)
    requires
        sorted_keys(entries_view(old(entries)@)),
    ensures
        sorted_keys(entries_view(final(entries)@)),
        entry_map(entries_view(final(entries)@)) == entry_map(entries_view(old(entries)@)).insert(
            key@,
            value@,
        ),
{
    let ghost s = entries_view(entries@);
    let ghost k = key@;
    let ghost v = value@;
    let mut i: usize = 0;
    while i < entries.len() && key_less(entries[i].0.as_str(), key.as_str())
        invariant
            s == entries_view(entries@),
            k == key@,
            i <= s.len(),
            forall|j: int| 0 <= j < i ==> key_lt(#[trigger] s[j].0, k),
        decreases s.len() - i,
    {
        i = i + 1;
    }
    let ghost m = entry_map(s).insert(k, v);
    if i < entries.len() && entries[i].0 == key {
        entries.set(i, (key, value));
        proof {
            let t = entries_view(entries@);
            assert(t =~= s.update(i as int, (k, v)));
            assert forall|a: int, b: int| 0 <= a < b < t.len() implies key_lt(
                #[trigger] t[a].0,
                #[trigger] t[b].0,
            ) by {
                assert(t[a].0 == s[a].0);
                assert(t[b].0 == s[b].0);
            }
            assert forall|i2: int| 0 <= i2 < t.len() implies m[(#[trigger] t[i2]).0] == t[i2].1 by {
                if i2 != i {
                    lemma_entry_map_at(s, i2);
                    lemma_entry_map_at(s, i as int);
                }
            }
            assert forall|k2: Seq<char>| m.contains_key(k2) implies exists|i2: int|
                0 <= i2 < t.len() && #[trigger] t[i2].0 == k2 by {
                if k2 != k {
                    let j = choose|j: int| 0 <= j < s.len() && s[j].0 == k2;
                    assert(t[j].0 == k2);
                } else {
                    assert(t[i as int].0 == k2);
                }
            }
            assert forall|k2: Seq<char>|
                (exists|i2: int| 0 <= i2 < t.len() && #[trigger] t[i2].0 == k2) implies m.contains_key(
                k2,
            ) by {
                let j = choose|j: int| 0 <= j < t.len() && t[j].0 == k2;
                if j != i {
                    assert(s[j].0 == k2);
                }
            }
            lemma_entry_map_from(t, m);
        }
    } else {
        proof {
            if i < s.len() {
                assert(s[i as int].0 != k);
                assert(!key_lt(s[i as int].0, k));
                lemma_key_lt_total(s[i as int].0, k);
                assert(key_lt(k, s[i as int].0));
            }
        }
        entries.insert(i, (key, value));
        proof {
            let t = entries_view(entries@);
            assert(t =~= s.insert(i as int, (k, v)));
            assert forall|a: int, b: int| 0 <= a < b < t.len() implies key_lt(
                #[trigger] t[a].0,
                #[trigger] t[b].0,
            ) by {
                if b < i {
                } else if b == i {
                } else if a < i {
                    assert(t[b] == s[b - 1]);
                    if i < s.len() {
                        if b - 1 > i {
                            assert(key_lt(s[i as int].0, s[b - 1].0));
                            lemma_key_lt_transitive(k, s[i as int].0, s[b - 1].0);
                        }
                        lemma_key_lt_transitive(t[a].0, k, t[b].0);
                    }
                } else if a == i {
                    assert(t[b] == s[b - 1]);
                    if b - 1 > i {
                        assert(key_lt(s[i as int].0, s[b - 1].0));
                        lemma_key_lt_transitive(k, s[i as int].0, s[b - 1].0);
                    }
                } else {
                    assert(t[a] == s[a - 1]);
                    assert(t[b] == s[b - 1]);
                }
            }
            assert forall|i2: int| 0 <= i2 < t.len() implies m[(#[trigger] t[i2]).0] == t[i2].1 by {
                if i2 < i {
                    lemma_entry_map_at(s, i2);
                    assert(key_lt(s[i2].0, k));
                    lemma_key_lt_irreflexive(k);
                } else if i2 > i {
                    lemma_entry_map_at(s, i2 - 1);
                    lemma_entry_map_at(t, i as int);
                    lemma_entry_map_at(t, i2);
                }
            }
            assert forall|k2: Seq<char>| m.contains_key(k2) implies exists|i2: int|
                0 <= i2 < t.len() && #[trigger] t[i2].0 == k2 by {
                if k2 != k {
                    let j = choose|j: int| 0 <= j < s.len() && s[j].0 == k2;
                    if j < i {
                        assert(t[j].0 == k2);
                    } else {
                        assert(t[j + 1].0 == k2);
                    }
                } else {
                    assert(t[i as int].0 == k2);
                }
            }
            assert forall|k2: Seq<char>|
                (exists|i2: int| 0 <= i2 < t.len() && #[trigger] t[i2].0 == k2) implies m.contains_key(
                k2,
            ) by {
                let j = choose|j: int| 0 <= j < t.len() && t[j].0 == k2;
                if j < i {
                    assert(s[j].0 == k2);
                } else if j > i {
                    assert(s[j - 1].0 == k2);
                }
            }
            lemma_entry_map_from(t, m);
        }
    }
}

impl DataPoint {
    #[verifier::type_invariant]
    closed spec fn inv(&self) -> bool {
        canonical(self@)
    }

    /// A point with the given measurement name, no tags, no fields and no
    /// timestamp.
    pub fn new(measurement: &str) -> (r: DataPoint)
        ensures
            r@ == (PointView {
                measurement: measurement@,
                tags: Seq::empty(),
                fields: Seq::empty(),
                timestamp: None,
            }),
    {
        let p = DataPoint {
            measurement: measurement.to_owned(),
            tags: Vec::new(),
            fields: Vec::new(),
            timestamp: None,
        };
        proof {
            assert(entries_view(p.tags@) =~= Seq::empty());
            assert(entries_view(p.fields@) =~= Seq::empty());
        }
        p
    }

    /// Sets the tag `tag` to `value`, in place of any value it had.
    pub fn add_tag(&mut self, tag: &str, value: Value) -> (r: &mut Self)
        ensures
            canonical(r@),
            r@.measurement == old(self)@.measurement,
            entry_map(r@.tags) == entry_map(old(self)@.tags).insert(tag@, value@),
            r@.fields == old(self)@.fields,
            r@.timestamp == old(self)@.timestamp,
            *final(self) == *final(r),
    {
        proof {
            use_type_invariant(&*self);
        }
        let mut tags: Vec<(String, Value)> = Vec::new();
        std::mem::swap(&mut tags, &mut self.tags);
        insert_entry(&mut tags, tag.to_owned(), value);
        self.tags = tags;
        self
    }

    /// Sets the field `field` to `value`, in place of any value it had.
    pub fn add_field(&mut self, field: &str, value: Value) -> (r: &mut Self)
        ensures
            canonical(r@),
            r@.measurement == old(self)@.measurement,
            r@.tags == old(self)@.tags,
            entry_map(r@.fields) == entry_map(old(self)@.fields).insert(field@, value@),
            r@.timestamp == old(self)@.timestamp,
            *final(self) == *final(r),
    {
        proof {
            use_type_invariant(&*self);
        }
        let mut fields: Vec<(String, Value)> = Vec::new();
        std::mem::swap(&mut fields, &mut self.fields);
        insert_entry(&mut fields, field.to_owned(), value);
        self.fields = fields;
        self
    }

    /// Sets the timestamp, in the unit that the caller has chosen.
    pub fn add_timestamp(&mut self, timestamp: i64) -> (r: &mut Self)
        ensures
            canonical(r@),
            r@ == (PointView { timestamp: Some(timestamp), ..old(self)@ }),
            *final(self) == *final(r),
    {
        proof {
            use_type_invariant(&*self);
        }
        self.timestamp = Some(timestamp);
        self
    }

    fn check(&self) -> (r: Option<EncodeError>)
        ensures
            r == encode_error(self@),
    {
        if self.measurement.as_str().is_empty() {
            return Some(EncodeError::EmptyMeasurement);
        }
        if self.fields.len() == 0 {
            return Some(EncodeError::NoFields);
        }
        let ghost tv = self@.tags;
        let mut i: usize = 0;
        while i < self.tags.len()
            invariant
                tv == self@.tags,
                tv == entries_view(self.tags@),
                self@.measurement.len() > 0,
                self@.fields.len() > 0,
                i <= self.tags@.len(),
                forall|j: int| 0 <= j < i ==> (#[trigger] tv[j]).1 is Text,
            decreases self.tags@.len() - i,
        {
            match &self.tags[i].1 {
                Value::String(_) => {},
                _ => {
                    assert(!(tv[i as int].1 is Text));
                    return Some(EncodeError::NonTextTag);
                },
            }
            i = i + 1;
        }
        let ghost fv = self@.fields;
        let mut i: usize = 0;
        while i < self.fields.len()
            invariant
                fv == self@.fields,
                fv == entries_view(self.fields@),
                self@.measurement.len() > 0,
                self@.fields.len() > 0,
                all_tags_text(self@.tags),
                i <= self.fields@.len(),
                forall|j: int|
                    0 <= j < i ==> ((#[trigger] fv[j]).1 matches ValueView::Float(t)
                        ==> is_float_text(t)),
            decreases self.fields@.len() - i,
        {
            match &self.fields[i].1 {
                Value::Float(t) => {
                    if !check_float_text(t.as_str()) {
                        assert(fv[i as int].1 == ValueView::Float(t@));
                        return Some(EncodeError::InvalidFloat);
                    }
                },
                _ => {},
            }
            i = i + 1;
        }
        None
    }
}

/// Encodes a point as one line of the line protocol, or says why it cannot
/// be encoded (see [`encode_error`]).
pub fn line_serialization(point: DataPoint) -> (r: Result<String, EncodeError>)
    ensures
        match r {
            Ok(line) => encode(point@) == Ok::<Seq<char>, EncodeError>(line@),
            Err(e) => encode(point@) == Err::<Seq<char>, EncodeError>(e),
        },
{
    if let Some(e) = point.check() {
        return Err(e);
    }
    let ghost p = point@;
    let mut line = escape_measurement(point.measurement.as_str());
    let ghost start = line@;
    let mut i: usize = 0;
    proof {
        assert(p.tags.skip(0) =~= p.tags);
    }
    while i < point.tags.len()
        invariant
            p == point@,
            p.tags == entries_view(point.tags@),
            all_tags_text(p.tags),
            i <= p.tags.len(),
            line@ + tags_text(p.tags.skip(i as int)) == start + tags_text(p.tags),
        decreases p.tags.len() - i,
    {
        let entry = &point.tags[i];
        let ghost rest = p.tags.skip(i as int);
        proof {
            assert(rest[0] == p.tags[i as int]);
            assert(rest.drop_first() =~= p.tags.skip(i + 1));
        }
        line.push(',');
        let key = escape_keys_and_tags(entry.0.as_str());
        line.append(key.as_str());
        line.push('=');
        match &entry.1 {
            Value::String(t) => {
                let v = escape_keys_and_tags(t.as_str());
                line.append(v.as_str());
            },
            _ => {
                assert(p.tags[i as int].1 is Text);
            },
        }
        proof {
            assert(line@ + tags_text(p.tags.skip(i + 1)) =~= start + tags_text(p.tags));
        }
        i = i + 1;
    }
    proof {
        assert(p.tags.skip(i as int) =~= Seq::<(Seq<char>, ValueView)>::empty());
        assert(line@ =~= escaped_measurement(p.measurement) + tags_text(p.tags));
    }
    line.push(' ');
    push_field(&mut line, &point.fields[0]);
    let ghost start = line@;
    let ghost fs = p.fields.drop_first();
    let mut i: usize = 1;
    proof {
        assert(fs.skip(0) =~= fs);
        assert(start =~= escaped_measurement(p.measurement) + tags_text(p.tags) + seq![' ']
            + field_text(p.fields[0]));
    }
    while i < point.fields.len()
        invariant
            p == point@,
            p.fields == entries_view(point.fields@),
            fs == p.fields.drop_first(),
            1 <= i <= p.fields.len(),
            line@ + more_fields_text(fs.skip(i - 1)) == start + more_fields_text(fs),
        decreases p.fields.len() - i,
    {
        let ghost rest = fs.skip(i - 1);
        proof {
            assert(rest[0] == p.fields[i as int]);
            assert(rest.drop_first() =~= fs.skip(i as int));
        }
        line.push(',');
        push_field(&mut line, &point.fields[i]);
        proof {
            assert(line@ + more_fields_text(fs.skip(i as int)) =~= start + more_fields_text(fs));
        }
        i = i + 1;
    }
    proof {
        assert(fs.skip(i - 1) =~= Seq::<(Seq<char>, ValueView)>::empty());
        assert(line@ =~= head_text(p));
    }
    if let Some(t) = point.timestamp {
        line.push(' ');
        push_int(&mut line, t);
    }
    line.push('\n');
    proof {
        assert(line@ =~= line_of(p));
    }
    Ok(line)
}

} // verus!
