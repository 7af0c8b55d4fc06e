//! A small JSON value model with a verified serializer and parser.
//!
//! The wire format of the mail API is plain JSON with integer, string,
//! array, object, boolean and null values. The codec here is the library's
//! own: serialization is specified exactly by spec functions over sequences
//! of characters, and the parser is proved to invert the serializer.

use vstd::prelude::*;

verus! {

/// An executable JSON value.
pub enum Json {
    Null,
    Bool(bool),
    Int(i64),
    Str(String),
    Arr(Vec<Json>),
    Obj(Vec<(String, Json)>),
}

/// The mathematical model of a JSON value.
#[verifier::ext_equal]
pub enum JsonV {
    Null,
    Bool(bool),
    Int(int),
    Str(Seq<char>),
    Arr(Seq<JsonV>),
    Obj(Seq<(Seq<char>, JsonV)>),
}

pub open spec fn json_view(v: Json) -> JsonV
    decreases v,
{
    match v {
        Json::Null => JsonV::Null,
        Json::Bool(b) => JsonV::Bool(b),
        Json::Int(n) => JsonV::Int(n as int),
        Json::Str(s) => JsonV::Str(s@),
        Json::Arr(a) => JsonV::Arr(json_view_seq(a@)),
        Json::Obj(m) => JsonV::Obj(json_view_members(m@)),
    }
}

pub open spec fn json_view_seq(a: Seq<Json>) -> Seq<JsonV>
    decreases a,
{
    if a.len() == 0 {
        Seq::empty()
    } else {
        seq![json_view(a[0])] + json_view_seq(a.drop_first())
    }
}

pub open spec fn json_view_members(m: Seq<(String, Json)>) -> Seq<(Seq<char>, JsonV)>
    decreases m,
{
    if m.len() == 0 {
        Seq::empty()
    } else {
        seq![(m[0].0@, json_view(m[0].1))] + json_view_members(m.drop_first())
    }
}

/// The view of a sequence of values is the sequence of views, element by
/// element.
pub proof fn lemma_json_view_seq_index(a: Seq<Json>)
    ensures
        json_view_seq(a).len() == a.len(),
        forall|k: int| 0 <= k < a.len() ==> json_view_seq(a)[k] == json_view(#[trigger] a[k]),
    decreases a,
{
    if a.len() > 0 {
        lemma_json_view_seq_index(a.drop_first());
        assert forall|k: int| 0 <= k < a.len() implies json_view_seq(a)[k] == json_view(#[trigger] a[k]) by {
            if k > 0 {
                assert(a.drop_first()[k - 1] == a[k]);
                assert(json_view_seq(a)[k] == json_view_seq(a.drop_first())[k - 1]);
            }
        }
    }
}

/// The view of a member list keeps each key and maps each value to its view.
pub proof fn lemma_json_view_members_index(m: Seq<(String, Json)>)
    ensures
        json_view_members(m).len() == m.len(),
        forall|k: int| 0 <= k < m.len() ==> json_view_members(m)[k] == ((#[trigger] m[k]).0@, json_view(m[k].1)),
    decreases m,
{
    if m.len() > 0 {
        lemma_json_view_members_index(m.drop_first());
        assert forall|k: int| 0 <= k < m.len() implies json_view_members(m)[k] == ((#[trigger] m[k]).0@, json_view(m[k].1)) by {
            if k > 0 {
                assert(m.drop_first()[k - 1] == m[k]);
                assert(json_view_members(m)[k] == json_view_members(m.drop_first())[k - 1]);
            }
        }
    }
}

impl View for Json {
    type V = JsonV;

    open spec fn view(&self) -> JsonV {
        json_view(*self)
    }
}

// ---------------------------------------------------------------------------
// Serialization, specified character by character.
// ---------------------------------------------------------------------------

pub open spec fn is_ws(c: char) -> bool {
    c == ' ' || c == '\n' || c == '\r' || c == '\t'
}

pub open spec fn is_digit(c: char) -> bool {
    '0' <= c && c <= '9'
}

/// The decimal digit character for `n` in `0..10`.
pub open spec fn digit_char(n: int) -> char {
    if n == 0 { '0' }
    else if n == 1 { '1' }
    else if n == 2 { '2' }
    else if n == 3 { '3' }
    else if n == 4 { '4' }
    else if n == 5 { '5' }
    else if n == 6 { '6' }
    else if n == 7 { '7' }
    else if n == 8 { '8' }
    else if n == 9 { '9' }
    else { '?' }
}

/// The lower-case hexadecimal digit character for `n` in `0..16`.
pub open spec fn hex_char(n: int) -> char {
    if n < 10 { digit_char(n) }
    else if n == 10 { 'a' }
    else if n == 11 { 'b' }
    else if n == 12 { 'c' }
    else if n == 13 { 'd' }
    else if n == 14 { 'e' }
    else if n == 15 { 'f' }
    else { '?' }
}

/// How one character of a string value is written: the two-character escapes
/// for quote, backslash and the common control characters, a `\u00..` escape
/// for the remaining control characters, and the character itself otherwise.
pub open spec fn esc_char(c: char) -> Seq<char> {
    if c == '"' { seq!['\\', '"'] }
    else if c == '\\' { seq!['\\', '\\'] }
    else if c == '\n' { seq!['\\', 'n'] }
    else if c == '\r' { seq!['\\', 'r'] }
    else if c == '\t' { seq!['\\', 't'] }
    else if (c as u32) < 32 {
        seq!['\\', 'u', '0', '0', hex_char(((c as u32) / 16) as int), hex_char(((c as u32) % 16) as int)]
    } else {
        seq![c]
    }
}

pub open spec fn esc_seq(s: Seq<char>) -> Seq<char>
    decreases s.len(),
{
    if s.len() == 0 {
        Seq::empty()
    } else {
        esc_char(s[0]) + esc_seq(s.drop_first())
    }
}

/// A string value: the escaped characters between two quotes.
pub open spec fn ser_str(s: Seq<char>) -> Seq<char> {
    seq!['"'] + esc_seq(s) + seq!['"']
}

/// The decimal digits of `n >= 0`, most significant first, no leading zero
/// except for `n == 0` itself.
pub open spec fn dec_digits(n: int) -> Seq<char>
    recommends n >= 0,
    decreases n,
{
    if n < 10 {
        seq![digit_char(n)]
    } else {
        dec_digits(n / 10).push(digit_char(n % 10))
    }
}

/// An integer value: a minus sign for negatives, then the decimal digits.
pub open spec fn ser_int(n: int) -> Seq<char> {
    if n < 0 { seq!['-'] + dec_digits(-n) } else { dec_digits(n) }
}

/// The serialized text of a JSON value: no whitespace, object members and
/// array items joined by single commas.
pub open spec fn ser_json(v: JsonV) -> Seq<char>
    decreases v,
{
    match v {
        JsonV::Null => seq!['n', 'u', 'l', 'l'],
        JsonV::Bool(b) => if b { seq!['t', 'r', 'u', 'e'] } else { seq!['f', 'a', 'l', 's', 'e'] },
        JsonV::Int(n) => ser_int(n),
        JsonV::Str(s) => ser_str(s),
        JsonV::Arr(a) => seq!['['] + ser_items(a) + seq![']'],
        JsonV::Obj(m) => seq!['{'] + ser_members(m) + seq!['}'],
    }
}

pub open spec fn ser_items(a: Seq<JsonV>) -> Seq<char>
    decreases a,
{
    if a.len() == 0 {
        Seq::empty()
    } else if a.len() == 1 {
        ser_json(a[0])
    } else {
        ser_json(a[0]) + seq![','] + ser_items(a.drop_first())
    }
}

pub open spec fn ser_members(m: Seq<(Seq<char>, JsonV)>) -> Seq<char>
    decreases m,
{
    if m.len() == 0 {
        Seq::empty()
    } else if m.len() == 1 {
        ser_str(m[0].0) + seq![':'] + ser_json(m[0].1)
    } else {
        ser_str(m[0].0) + seq![':'] + ser_json(m[0].1) + seq![','] + ser_members(m.drop_first())
    }
}

// ---------------------------------------------------------------------------
// The verified writer.
// ---------------------------------------------------------------------------

/// Relies on String::push: appends exactly the one character to the string.
#[verifier::external_body]
fn push_char(s: &mut String, c: char)
    ensures
        final(s)@ == old(s)@ + seq![c],
{
    s.push(c);
}

/// The characters of `s`, in order, as a string.
pub fn chars_to_string(s: &Vec<char>) -> (r: String)
    ensures
        r@ == s@,
{
    let mut r = String::new();
    let mut i: usize = 0;
    while i < s.len()
        invariant
            i <= s@.len(),
            r@ == s@.take(i as int),
        decreases s@.len() - i,
    {
        push_char(&mut r, s[i]);
        proof {
            assert(s@.take(i + 1) =~= s@.take(i as int) + seq![s@[i as int]]);
        }
        i = i + 1;
    }
    proof {
        assert(s@.take(s@.len() as int) =~= s@);
    }
    r
}

/// The characters of `s`, in order.
pub fn str_to_chars(s: &str) -> (r: Vec<char>)
    ensures
        r@ == s@,
{
    let n: usize = s.unicode_len();
    let mut r: Vec<char> = Vec::new();
    let mut i: usize = 0;
    while i < n
        invariant
            i <= n,
            n == s@.len(),
            r@ == s@.take(i as int),
        decreases n - i,
    {
        r.push(s.get_char(i));
        proof {
            assert(s@.take(i + 1) =~= s@.take(i as int) + seq![s@[i as int]]);
        }
        i = i + 1;
    }
    proof {
        assert(s@.take(s@.len() as int) =~= s@);
    }
    r
}

/// Writes the decimal digits of `n`.
fn write_digits(n: u64, out: &mut Vec<char>)
    ensures
        final(out)@ == old(out)@ + dec_digits(n as int),
    decreases n,
{
    if n < 10 {
        let c: char = match n {
            0 => '0',
            1 => '1',
            2 => '2',
            3 => '3',
            4 => '4',
            5 => '5',
            6 => '6',
            7 => '7',
            8 => '8',
            _ => '9',
        };
        out.push(c);
        proof {
            assert(out@ =~= old(out)@ + seq![digit_char(n as int)]);
        }
    } else {
        write_digits(n / 10, out);
        let d: u64 = n % 10;
        let c: char = match d {
            0 => '0',
            1 => '1',
            2 => '2',
            3 => '3',
            4 => '4',
            5 => '5',
            6 => '6',
            7 => '7',
            8 => '8',
            _ => '9',
        };
        out.push(c);
        proof {
            assert(c == digit_char(n as int % 10));
            assert(out@ =~= old(out)@ + dec_digits(n as int));
        }
    }
}

/// Writes an integer value.
fn write_int(n: i64, out: &mut Vec<char>)
    ensures
        final(out)@ == old(out)@ + ser_int(n as int),
{
    if n < 0 {
        out.push('-');
        let m: u64 = if n == i64::MIN {
            9223372036854775808u64
        } else {
            (-n) as u64
        };
        proof {
            assert(m as int == -(n as int));
        }
        write_digits(m, out);
        proof {
            assert(out@ =~= old(out)@ + ser_int(n as int));
        }
    } else {
        write_digits(n as u64, out);
    }
}

/// Writes one character of a string value in its escaped form.
fn write_escaped_char(c: char, out: &mut Vec<char>)
    ensures
        final(out)@ == old(out)@ + esc_char(c),
{
    if c == '"' {
        out.push('\\');
        out.push('"');
    } else if c == '\\' {
        out.push('\\');
        out.push('\\');
    } else if c == '\n' {
        out.push('\\');
        out.push('n');
    } else if c == '\r' {
        out.push('\\');
        out.push('r');
    } else if c == '\t' {
        out.push('\\');
        out.push('t');
    } else if (c as u32) < 32 {
        out.push('\\');
        out.push('u');
        out.push('0');
        out.push('0');
        let hi: u32 = (c as u32) / 16;
        let lo: u32 = (c as u32) % 16;
        out.push(if hi == 0 { '0' } else { '1' });
        let lc: char = match lo {
            0 => '0',
            1 => '1',
            2 => '2',
            3 => '3',
            4 => '4',
            5 => '5',
            6 => '6',
            7 => '7',
            8 => '8',
            9 => '9',
            10 => 'a',
            11 => 'b',
            12 => 'c',
            13 => 'd',
            14 => 'e',
            _ => 'f',
        };
        out.push(lc);
        proof {
            assert(hex_char(hi as int) == (if hi == 0 { '0' } else { '1' }));
            assert(hex_char(lo as int) == lc);
            assert(out@ =~= old(out)@ + esc_char(c));
        }
    } else {
        out.push(c);
    }
    proof {
        assert(out@ =~= old(out)@ + esc_char(c));
    }
}

/// Writes a string value: quotes around the escaped characters.
fn write_str_value(s: &str, out: &mut Vec<char>)
    ensures
        final(out)@ == old(out)@ + ser_str(s@),
{
    out.push('"');
    let n: usize = s.unicode_len();
    let mut i: usize = 0;
    while i < n
        invariant
            i <= n,
            n == s@.len(),
            out@ == old(out)@ + seq!['"'] + esc_seq(s@.take(i as int)),
        decreases n - i,
    {
        write_escaped_char(s.get_char(i), out);
        proof {
            lemma_esc_seq_snoc(s@.take(i + 1));
            assert(s@.take(i + 1).drop_last() =~= s@.take(i as int));
            assert(s@.take(i + 1).last() == s@[i as int]);
        }
        i = i + 1;
    }
    out.push('"');
    proof {
        assert(s@.take(s@.len() as int) =~= s@);
        assert(out@ =~= old(out)@ + ser_str(s@));
    }
}

/// Writes the serialized text of `v`.
fn write_json(v: &Json, out: &mut Vec<char>)
    ensures
        final(out)@ == old(out)@ + ser_json(v@),
    decreases *v, 0nat,
{
    match v {
        Json::Null => {
            out.push('n');
            out.push('u');
            out.push('l');
            out.push('l');
            proof {
                assert(out@ =~= old(out)@ + ser_json(v@));
            }
        },
        Json::Bool(b) => {
            if *b {
                out.push('t');
                out.push('r');
                out.push('u');
                out.push('e');
            } else {
                out.push('f');
                out.push('a');
                out.push('l');
                out.push('s');
                out.push('e');
            }
            proof {
                assert(out@ =~= old(out)@ + ser_json(v@));
            }
        },
        Json::Int(n) => {
            write_int(*n, out);
        },
        Json::Str(s) => {
            write_str_value(s.as_str(), out);
        },
        Json::Arr(a) => {
            out.push('[');
            write_items(a, 0, out);
            out.push(']');
            proof {
                lemma_json_view_seq_index(a@);
                assert(json_view_seq(a@).skip(0) =~= json_view_seq(a@));
                assert(out@ =~= old(out)@ + ser_json(v@));
            }
        },
        Json::Obj(m) => {
            out.push('{');
            write_members(m, 0, out);
            out.push('}');
            proof {
                lemma_json_view_members_index(m@);
                assert(json_view_members(m@).skip(0) =~= json_view_members(m@));
                assert(out@ =~= old(out)@ + ser_json(v@));
            }
        },
    }
}

/// Writes the items of `a` from index `i` on, comma separated.
fn write_items(a: &Vec<Json>, i: usize, out: &mut Vec<char>)
    requires
        i <= a@.len(),
    ensures
        final(out)@ == old(out)@ + ser_items(json_view_seq(a@).skip(i as int)),
    decreases a@, 1nat, a@.len() - i,
{
    proof {
        lemma_json_view_seq_index(a@);
    }
    if i < a.len() {
        proof {
            assert(decreases_to!(a@ => a@[i as int]));
        }
        write_json(&a[i], out);
        if i + 1 < a.len() {
            out.push(',');
            write_items(a, i + 1, out);
        }
        proof {
            let s = json_view_seq(a@);
            assert(s.skip(i as int).len() == s.len() - i);
            assert(s.skip(i as int)[0] == s[i as int]);
            if i + 1 < a@.len() {
                assert(s.skip(i as int).drop_first() =~= s.skip(i + 1));
                assert(ser_items(s.skip(i as int)) == ser_json(s[i as int]) + seq![','] + ser_items(
                    s.skip(i + 1),
                ));
            } else {
                assert(s.skip(i as int).len() == 1);
                assert(ser_items(s.skip(i as int)) == ser_json(s[i as int]));
            }
            assert(out@ =~= old(out)@ + ser_items(s.skip(i as int)));
        }
    } else {
        proof {
            assert(json_view_seq(a@).skip(i as int).len() == 0);
            assert(out@ =~= old(out)@ + ser_items(json_view_seq(a@).skip(i as int)));
        }
    }
}

/// Writes the members of `m` from index `i` on: `"key":value`, comma
/// separated.
fn write_members(m: &Vec<(String, Json)>, i: usize, out: &mut Vec<char>)
    requires
        i <= m@.len(),
    ensures
        final(out)@ == old(out)@ + ser_members(json_view_members(m@).skip(i as int)),
    decreases m@, 1nat, m@.len() - i,
{
    proof {
        lemma_json_view_members_index(m@);
    }
    if i < m.len() {
        write_str_value(m[i].0.as_str(), out);
        out.push(':');
        proof {
            assert(decreases_to!(m@ => m@[i as int]));
            assert(decreases_to!(m@[i as int] => m@[i as int].1));
        }
        write_json(&m[i].1, out);
        if i + 1 < m.len() {
            out.push(',');
            write_members(m, i + 1, out);
        }
        proof {
            let s = json_view_members(m@);
            assert(s.skip(i as int).len() == s.len() - i);
            assert(s.skip(i as int)[0] == s[i as int]);
            if i + 1 < m@.len() {
                assert(s.skip(i as int).drop_first() =~= s.skip(i + 1));
                assert(ser_members(s.skip(i as int)) == ser_str(s[i as int].0) + seq![':'] + ser_json(
                    s[i as int].1,
                ) + seq![','] + ser_members(s.skip(i + 1)));
            } else {
                assert(s.skip(i as int).len() == 1);
                assert(ser_members(s.skip(i as int)) == ser_str(s[i as int].0) + seq![':'] + ser_json(
                    s[i as int].1,
                ));
            }
            assert(out@ =~= old(out)@ + ser_members(s.skip(i as int)));
        }
    } else {
        proof {
            assert(json_view_members(m@).skip(i as int).len() == 0);
            assert(out@ =~= old(out)@ + ser_members(json_view_members(m@).skip(i as int)));
        }
    }
}

/// The serialized text of `v` as a string.
pub fn json_to_string(v: &Json) -> (r: String)
    ensures
        r@ == ser_json(v@),
{
    let mut buf: Vec<char> = Vec::new();
    write_json(v, &mut buf);
    chars_to_string(&buf)
}

// ---------------------------------------------------------------------------
// The parser and its specification.
//
// The parser takes any text; its contract pins its result on serializer
// output: wherever the text carries the serialization of a value followed by
// a structural delimiter, parsing returns exactly that value and stops
// exactly at its end. That is the round-trip guarantee the codec rests on.
// ---------------------------------------------------------------------------

/// Values the parser can represent: integers within `i64`.
pub open spec fn wf_jv(v: JsonV) -> bool
    decreases v,
{
    match v {
        JsonV::Null => true,
        JsonV::Bool(_) => true,
        JsonV::Int(n) => i64::MIN <= n <= i64::MAX,
        JsonV::Str(_) => true,
        JsonV::Arr(a) => forall|k: int| 0 <= k < a.len() ==> wf_jv(#[trigger] a[k]),
        JsonV::Obj(m) => forall|k: int| 0 <= k < m.len() ==> wf_jv(#[trigger] m[k].1),
    }
}

/// What may follow a serialized value inside serialized JSON text: nothing,
/// or a closing bracket or comma.
pub open spec fn delim_ok(rest: Seq<char>) -> bool {
    rest.len() == 0 || rest[0] == ',' || rest[0] == '}' || rest[0] == ']'
}

/// Position `i` of `s` carries the serialization of `v`, then `rest`.
pub open spec fn canon_at(s: Seq<char>, i: int, v: JsonV, rest: Seq<char>) -> bool {
    &&& 0 <= i <= s.len()
    &&& wf_jv(v)
    &&& s.skip(i) == ser_json(v) + rest
    &&& delim_ok(rest)
}

/// Position `i` of `s` carries a serialized string value, then `rest`.
pub open spec fn str_at(s: Seq<char>, i: int, t: Seq<char>, rest: Seq<char>) -> bool {
    &&& 0 <= i <= s.len()
    &&& s.skip(i) == ser_str(t) + rest
}

/// Position `i` of `s` carries a serialized integer, then a delimiter.
pub open spec fn int_at(s: Seq<char>, i: int, n: int, rest: Seq<char>) -> bool {
    &&& 0 <= i <= s.len()
    &&& i64::MIN <= n <= i64::MAX
    &&& s.skip(i) == ser_int(n) + rest
    &&& delim_ok(rest)
}

/// Splitting text known to hold `a + b` from position `i` on.
proof fn lemma_skip_prefix(s: Seq<char>, i: int, a: Seq<char>, b: Seq<char>)
    requires
        0 <= i <= s.len(),
        s.skip(i) == a + b,
    ensures
        i + a.len() + b.len() == s.len(),
        forall|k: int| 0 <= k < a.len() ==> s[i + k] == a[k],
        s.skip(i + a.len()) == b,
{
    assert(s.skip(i).len() == s.len() - i);
    assert forall|k: int| 0 <= k < a.len() implies s[i + k] == a[k] by {
        assert(s.skip(i)[k] == s[i + k]);
    }
    assert forall|k: int| 0 <= k < b.len() implies s.skip(i + a.len())[k] == b[k] by {
        assert(s.skip(i)[a.len() + k] == s[i + a.len() + k]);
        assert((a + b)[a.len() + k] == b[k]);
        assert(s.skip(i + a.len())[k] == s[i + a.len() + k]);
    }
    assert(s.skip(i + a.len()) =~= b);
}

pub open spec fn digit_val(c: char) -> int {
    c as int - 48
}

/// The value of a digit string, most significant digit first.
pub open spec fn digits_val(ds: Seq<char>) -> int
    decreases ds.len(),
{
    if ds.len() == 0 {
        0
    } else {
        digits_val(ds.drop_last()) * 10 + digit_val(ds.last())
    }
}

pub open spec fn pow10(k: nat) -> int
    decreases k,
{
    if k == 0 {
        1
    } else {
        10 * pow10((k - 1) as nat)
    }
}

/// The decimal digits of `n` are digits, and read back as `n`.
proof fn lemma_dec_digits(n: int)
    requires
        n >= 0,
    ensures
        dec_digits(n).len() >= 1,
        forall|k: int| 0 <= k < dec_digits(n).len() ==> is_digit(#[trigger] dec_digits(n)[k]),
        digits_val(dec_digits(n)) == n,
    decreases n,
{
    if n < 10 {
        assert(dec_digits(n) == seq![digit_char(n)]);
        assert(dec_digits(n).drop_last() =~= Seq::<char>::empty());
        assert(dec_digits(n).last() == digit_char(n));
        assert(digits_val(Seq::<char>::empty()) == 0);
        assert(digits_val(dec_digits(n)) == digits_val(dec_digits(n).drop_last()) * 10 + digit_val(
            dec_digits(n).last(),
        ));
        assert(digit_val(digit_char(n)) == n);
        assert(is_digit(digit_char(n)));
    } else {
        lemma_dec_digits(n / 10);
        let ds = dec_digits(n);
        assert(ds == dec_digits(n / 10).push(digit_char(n % 10)));
        assert(ds.drop_last() =~= dec_digits(n / 10));
        assert(ds.last() == digit_char(n % 10));
        assert(digit_val(digit_char(n % 10)) == n % 10);
        assert(digits_val(ds) == (n / 10) * 10 + n % 10);
        assert((n / 10) * 10 + n % 10 == n) by (nonlinear_arith);
        assert forall|k: int| 0 <= k < ds.len() implies is_digit(#[trigger] ds[k]) by {
            if k < ds.len() - 1 {
                assert(ds[k] == dec_digits(n / 10)[k]);
            } else {
                assert(ds[k] == digit_char(n % 10));
                assert(is_digit(digit_char(n % 10)));
            }
        }
    }
}

/// `n < 10^k` has at most `k` decimal digits.
proof fn lemma_dec_digits_len(n: int, k: nat)
    requires
        k >= 1,
        0 <= n < pow10(k),
    ensures
        dec_digits(n).len() <= k,
    decreases n,
{
    if n < 10 {
    } else {
        assert(k >= 2) by {
            if k == 1 {
                assert(pow10(0) == 1);
                assert(pow10(1) == 10);
            }
        }
        assert(n / 10 < pow10((k - 1) as nat)) by (nonlinear_arith)
            requires
                n < pow10(k),
                pow10(k) == 10 * pow10((k - 1) as nat),
                n >= 10,
        ;
        lemma_dec_digits_len(n / 10, (k - 1) as nat);
    }
}

/// A digit string of length `k` has value under `10^k`.
proof fn lemma_digits_val_bound(ds: Seq<char>)
    requires
        forall|k: int| 0 <= k < ds.len() ==> is_digit(#[trigger] ds[k]),
    ensures
        0 <= digits_val(ds) < pow10(ds.len()),
    decreases ds.len(),
{
    if ds.len() > 0 {
        lemma_digits_val_bound(ds.drop_last());
        assert(0 <= digit_val(ds.last()) <= 9);
        assert(digits_val(ds.drop_last()) * 10 + digit_val(ds.last()) < pow10(ds.len())) by (nonlinear_arith)
            requires
                0 <= digits_val(ds.drop_last()) < pow10(ds.drop_last().len()),
                0 <= digit_val(ds.last()) <= 9,
                pow10(ds.len()) == 10 * pow10(ds.drop_last().len()),
        ;
    }
}

/// The serialization of any value is nonempty, and its first character names
/// the variant: objects and arrays open with their bracket, strings with a
/// quote, integers with a digit or minus sign, and the three word forms with
/// their first letter.
proof fn lemma_ser_json_first(v: JsonV)
    ensures
        ser_json(v).len() >= 1,
        v is Null ==> ser_json(v)[0] == 'n',
        v is Bool ==> ser_json(v)[0] == 't' || ser_json(v)[0] == 'f',
        v is Int ==> ser_json(v)[0] == '-' || is_digit(ser_json(v)[0]),
        v is Str ==> ser_json(v)[0] == '"',
        v is Arr ==> ser_json(v)[0] == '[',
        v is Obj ==> ser_json(v)[0] == '{',
        !is_ws(ser_json(v)[0]),
        ser_json(v)[0] != ']' && ser_json(v)[0] != '}' && ser_json(v)[0] != ',' && ser_json(v)[0] != ':',
{
    match v {
        JsonV::Int(n) => {
            if n < 0 {
                assert(ser_json(v)[0] == '-');
            } else {
                lemma_dec_digits(n);
                assert(ser_json(v)[0] == dec_digits(n)[0]);
                assert(is_digit(dec_digits(n)[0]));
            }
        },
        _ => {},
    }
}

/// Unfolding `esc_seq` from the back: the escape of the last character comes
/// last.
proof fn lemma_esc_seq_snoc(s: Seq<char>)
    requires
        s.len() > 0,
    ensures
        esc_seq(s) == esc_seq(s.drop_last()) + esc_char(s.last()),
    decreases s.len(),
{
    if s.len() == 1 {
        assert(s.drop_last() =~= Seq::<char>::empty());
        assert(s.drop_first() =~= Seq::<char>::empty());
        assert(esc_seq(s) =~= esc_seq(s.drop_last()) + esc_char(s.last()));
    } else {
        lemma_esc_seq_snoc(s.drop_first());
        assert(s.drop_first().drop_last() =~= s.drop_last().drop_first());
        assert(s.drop_first().last() == s.last());
        assert(s.drop_last().len() > 0);
        assert(s.drop_last()[0] == s[0]);
        assert(esc_seq(s) == esc_char(s[0]) + esc_seq(s.drop_first()));
        assert(esc_seq(s.drop_last()) == esc_char(s[0]) + esc_seq(s.drop_last().drop_first()));
        assert(esc_seq(s) =~= esc_seq(s.drop_last()) + esc_char(s.last()));
    }
}

/// The first index at or after `i` that holds no whitespace.
fn skip_ws(s: &Vec<char>, i: usize) -> (j: usize)
    requires
        i <= s@.len(),
    ensures
        i <= j <= s@.len(),
        forall|k: int| i <= k < j ==> is_ws(s@[k]),
        j == s@.len() || !is_ws(s@[j as int]),
{
    let mut j = i;
    while j < s.len() && (s[j] == ' ' || s[j] == '\n' || s[j] == '\r' || s[j] == '\t')
        invariant
            i <= j <= s@.len(),
            forall|k: int| i <= k < j ==> is_ws(s@[k]),
        decreases s@.len() - j,
    {
        j = j + 1;
    }
    j
}

pub open spec fn hex_val(c: char) -> int {
    if is_digit(c) {
        c as int - 48
    } else if 'a' <= c && c <= 'f' {
        c as int - 87
    } else if 'A' <= c && c <= 'F' {
        c as int - 55
    } else {
        -1
    }
}

/// Prefixes one decoded character onto a scan result.
pub open spec fn cons_scan(c: char, r: Option<(Seq<char>, int)>) -> Option<(Seq<char>, int)> {
    match r {
        Some((t, e)) => Some((seq![c] + t, e)),
        None => None,
    }
}

/// The string-body scanner: the decoded characters from `p` up to the
/// closing quote, and the index just past that quote. `None` when the text
/// is no well-formed string body (the only unicode escapes taken are the
/// `\u00..` forms the serializer writes).
pub open spec fn scan_str(s: Seq<char>, p: int) -> Option<(Seq<char>, int)>
    decreases s.len() - p,
{
    if p < 0 || p >= s.len() {
        None
    } else if s[p] == '"' {
        Some((Seq::empty(), p + 1))
    } else if s[p] == '\\' {
        if p + 1 >= s.len() {
            None
        } else {
            let e = s[p + 1];
            if e == '"' || e == '\\' || e == '/' {
                cons_scan(e, scan_str(s, p + 2))
            } else if e == 'n' {
                cons_scan('\n', scan_str(s, p + 2))
            } else if e == 'r' {
                cons_scan('\r', scan_str(s, p + 2))
            } else if e == 't' {
                cons_scan('\t', scan_str(s, p + 2))
            } else if e == 'b' {
                cons_scan('\u{8}', scan_str(s, p + 2))
            } else if e == 'f' {
                cons_scan('\u{c}', scan_str(s, p + 2))
            } else if e == 'u' && p + 6 <= s.len() && s[p + 2] == '0' && s[p + 3] == '0'
                && hex_val(s[p + 4]) >= 0 && hex_val(s[p + 5]) >= 0 {
                cons_scan(((hex_val(s[p + 4]) * 16 + hex_val(s[p + 5])) as u32) as char, scan_str(s, p + 6))
            } else {
                None
            }
        }
    } else {
        cons_scan(s[p], scan_str(s, p + 1))
    }
}

/// On serializer output the scanner recovers the string: from the character
/// after the opening quote it returns exactly the escaped text and stops
/// just past the closing quote.
proof fn lemma_scan_str_inverts(s: Seq<char>, p: int, t: Seq<char>, rest: Seq<char>)
    requires
        0 <= p <= s.len(),
        s.skip(p) == esc_seq(t) + (seq!['"'] + rest),
    ensures
        scan_str(s, p) == Some((t, p + esc_seq(t).len() + 1)),
    decreases t.len(),
{
    lemma_skip_prefix(s, p, esc_seq(t), seq!['"'] + rest);
    if t.len() == 0 {
        assert(esc_seq(t) =~= Seq::<char>::empty());
        assert(s.skip(p) =~= seq!['"'] + rest);
        assert(s.skip(p)[0] == s[p + 0]);
        assert((seq!['"'] + rest)[0] == '"');
        assert(s[p] == '"');
    } else {
        let c = t[0];
        let tl = t.drop_first();
        assert(esc_seq(t) == esc_char(c) + esc_seq(tl));
        let ec = esc_char(c);
        assert((esc_char(c) + esc_seq(tl)) + (seq!['"'] + rest) =~= esc_char(c) + (esc_seq(tl) + (
        seq!['"'] + rest)));
        lemma_skip_prefix(s, p, ec, esc_seq(tl) + (seq!['"'] + rest));
        lemma_scan_str_inverts(s, p + ec.len(), tl, rest);
        if c == '"' || c == '\\' {
            assert(s[p] == '\\' && s[p + 1] == c);
            assert(scan_str(s, p) == cons_scan(c, scan_str(s, p + 2)));
            assert(seq![c] + tl =~= t);
        } else if c == '\n' {
            assert(s[p] == '\\' && s[p + 1] == 'n');
            assert(scan_str(s, p) == cons_scan('\n', scan_str(s, p + 2)));
            assert(seq![c] + tl =~= t);
        } else if c == '\r' {
            assert(s[p] == '\\' && s[p + 1] == 'r');
            assert(scan_str(s, p) == cons_scan('\r', scan_str(s, p + 2)));
            assert(seq![c] + tl =~= t);
        } else if c == '\t' {
            assert(s[p] == '\\' && s[p + 1] == 't');
            assert(scan_str(s, p) == cons_scan('\t', scan_str(s, p + 2)));
            assert(seq![c] + tl =~= t);
        } else if (c as u32) < 32 {
            let cu = (c as u32) as int;
            let hi = cu / 16;
            let lo = cu % 16;
            assert(ec == seq!['\\', 'u', '0', '0', hex_char(hi), hex_char(lo)]);
            assert(s[p] == '\\' && s[p + 1] == 'u' && s[p + 2] == '0' && s[p + 3] == '0');
            assert(s[p + 4] == hex_char(hi) && s[p + 5] == hex_char(lo));
            assert(0 <= hi < 2 && 0 <= lo < 16) by (nonlinear_arith)
                requires
                    0 <= cu && cu < 32,
                    hi == cu / 16,
                    lo == cu % 16,
            ;
            assert(hex_val(hex_char(hi)) == hi);
            assert(hex_val(hex_char(lo)) == lo);
            assert(hi * 16 + lo == cu) by (nonlinear_arith)
                requires
                    hi == cu / 16,
                    lo == cu % 16,
            ;
            assert(((hi * 16 + lo) as u32) == c as u32);
            vstd::utf8::char_u32_cast(c, (hi * 16 + lo) as u32);
            assert((((hi * 16 + lo) as u32) as char) == c);
            assert(scan_str(s, p) == cons_scan(c, scan_str(s, p + 6)));
            assert(seq![c] + tl =~= t);
        } else {
            assert(ec == seq![c]);
            assert(ec[0] == c);
            assert(s[p + 0] == ec[0]);
            assert(s[p] == c);
            assert(c != '"' && c != '\\');
            assert(scan_str(s, p) == cons_scan(c, scan_str(s, p + 1)));
            assert(seq![c] + tl =~= t);
        }
    }
}

/// Prefixing distributes over one decoded character.
proof fn lemma_prepend_cons(prefix: Seq<char>, c: char, r: Option<(Seq<char>, int)>)
    ensures
        prepend_scan(prefix, cons_scan(c, r)) == prepend_scan(prefix.push(c), r),
{
    match r {
        Some((t, e)) => {
            assert(prefix + (seq![c] + t) =~= prefix.push(c) + t);
        },
        None => {},
    }
}

/// Prefixes already-decoded characters onto a scan result.
pub open spec fn prepend_scan(prefix: Seq<char>, r: Option<(Seq<char>, int)>) -> Option<(Seq<char>, int)> {
    match r {
        Some((t, e)) => Some((prefix + t, e)),
        None => None,
    }
}

/// The hexadecimal value of `c`, or `-1` when `c` is no hex digit.
fn hex_digit_val(c: char) -> (r: i32)
    ensures
        r as int == hex_val(c),
{
    if '0' <= c && c <= '9' {
        (c as u32 as i32) - 48
    } else if 'a' <= c && c <= 'f' {
        (c as u32 as i32) - 87
    } else if 'A' <= c && c <= 'F' {
        (c as u32 as i32) - 55
    } else {
        -1
    }
}

proof fn lemma_pow10_pos(a: nat)
    ensures
        pow10(a) >= 1,
    decreases a,
{
    if a > 0 {
        lemma_pow10_pos((a - 1) as nat);
    }
}

proof fn lemma_pow10_mono(a: nat, b: nat)
    requires
        a <= b,
    ensures
        pow10(a) <= pow10(b),
        pow10(a) >= 1,
    decreases b,
{
    lemma_pow10_pos(a);
    if a < b {
        lemma_pow10_mono(a, (b - 1) as nat);
    }
}

/// Where the digit loop stopped: exactly at the end of the serialized
/// digit run.
proof fn lemma_int_stop(s: Seq<char>, i: int, n: int, rest: Seq<char>, neg: bool, start: int, p: int)
    requires
        int_at(s, i, n, rest),
        neg ==> (i < s.len() && s[i] == '-'),
        !neg ==> (i == s.len() || s[i] != '-'),
        start == if neg { i + 1 } else { i },
        start <= p <= s.len(),
        p - start <= 19,
        forall|k: int| start <= k < p ==> is_digit(s[k]),
        !(p < s.len() && is_digit(s[p]) && p - start < 19),
    ensures
        p == start + dec_digits(if n < 0 { -n } else { n }).len(),
{
    lemma_int_at_facts(s, i, n, rest, neg, start, s.len() as int);
    let mag = if n < 0 { -n } else { n };
    let ll = dec_digits(mag).len();
    if p > start + ll {
        assert(is_digit(s[start + ll]));
        assert(false);
    }
    if p < start + ll {
        assert(is_digit(s[start + (p - start)]));
        assert(s[p] == s[start + (p - start)]);
        assert(p - start < ll <= 19);
        assert(false);
    }
}

/// Parses an integer value at `i`. On serializer output followed by a
/// delimiter it returns exactly the serialized integer.
fn parse_int(s: &Vec<char>, i: usize) -> (r: (usize, Option<i64>))
    requires
        i <= s@.len(),
    ensures
        i <= r.0 <= s@.len(),
        r.1 is Some ==> r.0 > i,
        forall|n: int, rest: Seq<char>| #[trigger] int_at(s@, i as int, n, rest) ==> (r.1 matches
            Some(out) && out as int == n && r.0 == i + ser_int(n).len()),
{
    let mut p: usize = i;
    let mut neg: bool = false;
    if p < s.len() && s[p] == '-' {
        neg = true;
        p = p + 1;
    }
    let start: usize = p;
    let mut val: u64 = 0;
    proof {
        assert(s@.subrange(start as int, start as int) =~= Seq::<char>::empty());
    }
    while p < s.len() && '0' <= s[p] && s[p] <= '9' && p - start < 19
        invariant
            i <= start <= p <= s@.len(),
            p - start <= 19,
            start == if neg { i + 1 } else { i as int },
            neg ==> i < s@.len() && s@[i as int] == '-',
            !neg ==> (i == s@.len() || s@[i as int] != '-'),
            forall|k: int| start <= k < p ==> is_digit(s@[k]),
            val as int == digits_val(s@.subrange(start as int, p as int)),
            (val as int) < pow10((p - start) as nat),
        decreases s@.len() - p,
    {
        proof {
            assert(pow10(18) == 1000000000000000000) by {
                reveal_with_fuel(pow10, 19);
            }
            lemma_pow10_mono((p - start) as nat, 18);
            assert(pow10(((p - start) + 1) as nat) == 10 * pow10((p - start) as nat));
        }
        let d: u64 = (s[p] as u32 as u64) - 48;
        proof {
            let pre = s@.subrange(start as int, p as int);
            let post = s@.subrange(start as int, p + 1);
            assert(post.drop_last() =~= pre);
            assert(post.last() == s@[p as int]);
            assert(d as int == digit_val(s@[p as int]));
        }
        val = val * 10 + d;
        p = p + 1;
    }
    if p == start {
        proof {
            assert forall|n: int, rest: Seq<char>| !(#[trigger] int_at(s@, i as int, n, rest)) by {
                if int_at(s@, i as int, n, rest) {
                    lemma_int_stop(s@, i as int, n, rest, neg, start as int, p as int);
                    lemma_int_at_facts(s@, i as int, n, rest, neg, start as int, s@.len() as int);
                }
            }
        }
        return (i, None);
    }
    if p < s.len() && '0' <= s[p] && s[p] <= '9' {
        proof {
            assert forall|n: int, rest: Seq<char>| !(#[trigger] int_at(s@, i as int, n, rest)) by {
                if int_at(s@, i as int, n, rest) {
                    lemma_int_stop(s@, i as int, n, rest, neg, start as int, p as int);
                    lemma_int_at_facts(s@, i as int, n, rest, neg, start as int, s@.len() as int);
                    let mag = if n < 0 { -n } else { n };
                    let ll = dec_digits(mag).len();
                    assert(p == start + ll);
                    assert(!is_digit(s@[start as int + ll]));
                }
            }
        }
        return (i, None);
    }
    proof {
        assert forall|n: int, rest: Seq<char>| #[trigger] int_at(s@, i as int, n, rest) implies ({
            let mag = if n < 0 { -n } else { n };
            &&& neg == (n < 0)
            &&& p == start + dec_digits(mag).len()
            &&& val as int == mag
            &&& p == i + ser_int(n).len()
        }) by {
            lemma_int_stop(s@, i as int, n, rest, neg, start as int, p as int);
            lemma_int_at_facts(s@, i as int, n, rest, neg, start as int, s@.len() as int);
            let mag = if n < 0 { -n } else { n };
            let dd = dec_digits(mag);
            let ll = dd.len();
            assert(p == start + ll);
            assert(s@.subrange(start as int, p as int) =~= dd);
            lemma_dec_digits(mag);
        }
    }
    if neg {
        if val > 9223372036854775808u64 {
            return (i, None);
        }
        let out: i64 = if val == 9223372036854775808u64 {
            i64::MIN
        } else {
            -(val as i64)
        };
        return (p, Some(out));
    } else {
        if val > 9223372036854775807u64 {
            return (i, None);
        }
        return (p, Some(val as i64));
    }
}

/// Under the integer hypothesis, where the digit loop must have stopped.
/// The proof threads the exec state through: `neg`, `start` and the loop
/// bound are passed in, and the conclusions are phrased over them.
proof fn lemma_int_at_facts(
    s: Seq<char>,
    i: int,
    n: int,
    rest: Seq<char>,
    neg: bool,
    start: int,
    len: int,
)
    requires
        int_at(s, i, n, rest),
        len == s.len(),
        neg ==> (i < len && s[i] == '-'),
        !neg ==> (i == len || s[i] != '-'),
        start == if neg { i + 1 } else { i },
    ensures
        neg == (n < 0),
        0 <= (if n < 0 { -n } else { n }) <= 9223372036854775808,
        1 <= dec_digits(if n < 0 { -n } else { n }).len() <= 19,
        start + dec_digits(if n < 0 { -n } else { n }).len() <= len,
        s.subrange(start, start + dec_digits(if n < 0 { -n } else { n }).len()) == dec_digits(
            if n < 0 { -n } else { n },
        ),
        forall|k: int| 0 <= k < dec_digits(if n < 0 { -n } else { n }).len() ==> is_digit(
            #[trigger] s[start + k],
        ),
        start + dec_digits(if n < 0 { -n } else { n }).len() < len ==> !is_digit(
            s[start + dec_digits(if n < 0 { -n } else { n }).len()],
        ),
        digits_val(dec_digits(if n < 0 { -n } else { n })) == (if n < 0 { -n } else { n }),
{
    let mag = if n < 0 { -n } else { n };
    let dd = dec_digits(mag);
    lemma_dec_digits(mag);
    assert(pow10(19) == 10000000000000000000) by {
        reveal_with_fuel(pow10, 20);
    }
    lemma_dec_digits_len(mag, 19);
    if n < 0 {
        assert(ser_int(n) == seq!['-'] + dd);
        assert((seq!['-'] + dd) + rest =~= seq!['-'] + (dd + rest));
        lemma_skip_prefix(s, i, seq!['-'], dd + rest);
        assert(seq!['-'][0] == '-');
        assert(s[i + 0] == seq!['-'][0]);
        assert(s[i] == '-');
        lemma_skip_prefix(s, i + 1, dd, rest);
        assert forall|k: int| 0 <= k < dd.len() implies is_digit(#[trigger] s[start + k]) by {
            assert(s[start + k] == dd[k]);
        }
        assert(s.subrange(start, start + dd.len()) =~= dd);
        if start + dd.len() < len {
            assert(rest.len() > 0);
            assert(s[start + dd.len()] == rest[0]);
        }
    } else {
        assert(ser_int(n) == dd);
        lemma_skip_prefix(s, i, dd, rest);
        assert(s[i] == dd[0]);
        assert(is_digit(dd[0]));
        assert(s[i] != '-');
        assert forall|k: int| 0 <= k < dd.len() implies is_digit(#[trigger] s[start + k]) by {
            assert(s[start + k] == dd[k]);
        }
        assert(s.subrange(start, start + dd.len()) =~= dd);
        if start + dd.len() < len {
            assert(rest.len() > 0);
            assert(s[start + dd.len()] == rest[0]);
        }
    }
}

/// Parses a string value at `i`. On serializer output it returns exactly
/// the serialized string and stops exactly at its end.
fn parse_string(s: &Vec<char>, i: usize) -> (r: (usize, Option<String>))
    requires
        i <= s@.len(),
    ensures
        i <= r.0 <= s@.len(),
        r.1 is Some ==> r.0 > i,
        forall|t: Seq<char>, rest: Seq<char>| #[trigger] str_at(s@, i as int, t, rest) ==> (r.1
            matches Some(out) && out@ == t && r.0 == i + ser_str(t).len()),
{
    if i >= s.len() || s[i] != '"' {
        proof {
            assert forall|t: Seq<char>, rest: Seq<char>| !(#[trigger] str_at(
                s@,
                i as int,
                t,
                rest,
            )) by {
                if str_at(s@, i as int, t, rest) {
                    lemma_skip_prefix(s@, i as int, ser_str(t), rest);
                    assert(s@[i as int] == ser_str(t)[0]);
                }
            }
        }
        return (i, None);
    }
    proof {
        assert forall|t: Seq<char>, rest: Seq<char>| #[trigger] str_at(s@, i as int, t, rest)
            implies scan_str(s@, i + 1) == Some((t, i + 1 + esc_seq(t).len() + 1)) by {
            lemma_skip_prefix(s@, i as int, ser_str(t), rest);
            assert((seq!['"'] + esc_seq(t) + seq!['"']) + rest =~= seq!['"'] + (esc_seq(t) + (
            seq!['"'] + rest)));
            lemma_skip_prefix(s@, i as int, seq!['"'], esc_seq(t) + (seq!['"'] + rest));
            lemma_scan_str_inverts(s@, i + 1, t, rest);
        }
    }
    let mut p: usize = i + 1;
    let mut buf: Vec<char> = Vec::new();
    loop
        invariant
            i + 1 <= p <= s@.len(),
            scan_str(s@, i + 1) == prepend_scan(buf@, scan_str(s@, p as int)),
            forall|t: Seq<char>, rest: Seq<char>| #[trigger] str_at(s@, i as int, t, rest) ==>
                scan_str(s@, i + 1) == Some((t, i + 1 + esc_seq(t).len() + 1)),
        decreases s@.len() - p,
    {
        if p >= s.len() {
            return (i, None);
        }
        let c = s[p];
        if c == '"' {
            proof {
                assert(buf@ + Seq::<char>::empty() =~= buf@);
            }
            let out = chars_to_string(&buf);
            return (p + 1, Some(out));
        } else if c == '\\' {
            if p + 1 >= s.len() {
                return (i, None);
            }
            let e = s[p + 1];
            if e == '"' || e == '\\' || e == '/' {
                proof {
                    lemma_prepend_cons(buf@, e, scan_str(s@, p + 2));
                }
                buf.push(e);
                p = p + 2;
            } else if e == 'n' {
                proof {
                    lemma_prepend_cons(buf@, '\n', scan_str(s@, p + 2));
                }
                buf.push('\n');
                p = p + 2;
            } else if e == 'r' {
                proof {
                    lemma_prepend_cons(buf@, '\r', scan_str(s@, p + 2));
                }
                buf.push('\r');
                p = p + 2;
            } else if e == 't' {
                proof {
                    lemma_prepend_cons(buf@, '\t', scan_str(s@, p + 2));
                }
                buf.push('\t');
                p = p + 2;
            } else if e == 'b' {
                proof {
                    lemma_prepend_cons(buf@, '\u{8}', scan_str(s@, p + 2));
                }
                buf.push('\u{8}');
                p = p + 2;
            } else if e == 'f' {
                proof {
                    lemma_prepend_cons(buf@, '\u{c}', scan_str(s@, p + 2));
                }
                buf.push('\u{c}');
                p = p + 2;
            } else if e == 'u' && s.len() - p >= 6 && s[p + 2] == '0' && s[p + 3] == '0'
                && hex_digit_val(s[p + 4]) >= 0 && hex_digit_val(s[p + 5]) >= 0 {
                let h2 = hex_digit_val(s[p + 4]);
                let h3 = hex_digit_val(s[p + 5]);
                let code: u8 = (h2 * 16 + h3) as u8;
                let d: char = code as char;
                proof {
                    let val = hex_val(s@[p + 4]) * 16 + hex_val(s@[p + 5]);
                    assert(0 <= val < 256);
                    assert(d as u32 == val as u32);
                    vstd::utf8::char_u32_cast(d, val as u32);
                    assert(d == ((val as u32) as char));
                    lemma_prepend_cons(buf@, d, scan_str(s@, p + 6));
                }
                buf.push(d);
                p = p + 6;
            } else {
                return (i, None);
            }
        } else {
            proof {
                lemma_prepend_cons(buf@, c, scan_str(s@, p + 1));
            }
            buf.push(c);
            p = p + 1;
        }
    }
}

/// What one position of serialized text says about the whole value:
/// lengths, characters, and the first character's class.
proof fn lemma_canon_facts(s: Seq<char>, i: int, v: JsonV, rest: Seq<char>)
    requires
        canon_at(s, i, v, rest),
    ensures
        i + ser_json(v).len() + rest.len() == s.len(),
        i < s.len(),
        forall|k: int| 0 <= k < ser_json(v).len() ==> s[i + k] == #[trigger] ser_json(v)[k],
        s.skip(i + ser_json(v).len()) == rest,
        ser_json(v).len() >= 1,
        s[i] == ser_json(v)[0],
        !is_ws(s[i]),
        v is Null ==> s[i] == 'n',
        v is Bool ==> s[i] == 't' || s[i] == 'f',
        v is Int ==> s[i] == '-' || is_digit(s[i]),
        v is Str ==> s[i] == '"',
        v is Arr ==> s[i] == '[',
        v is Obj ==> s[i] == '{',
        s[i] == 'n' ==> v is Null,
        s[i] == 't' || s[i] == 'f' ==> v is Bool,
        s[i] == '-' || is_digit(s[i]) ==> v is Int,
        s[i] == '"' ==> v is Str,
        s[i] == '[' ==> v is Arr,
        s[i] == '{' ==> v is Obj,
{
    lemma_skip_prefix(s, i, ser_json(v), rest);
    lemma_ser_json_first(v);
    assert(s[i + 0] == ser_json(v)[0]);
    match v {
        JsonV::Null => {},
        JsonV::Bool(_) => {},
        JsonV::Int(_) => {},
        JsonV::Str(_) => {},
        JsonV::Arr(_) => {},
        JsonV::Obj(_) => {},
    }
}

/// The view of a pushed element comes last.
pub proof fn lemma_json_view_seq_push(u: Seq<Json>, x: Json)
    ensures
        json_view_seq(u.push(x)) == json_view_seq(u).push(json_view(x)),
    decreases u,
{
    if u.len() == 0 {
        assert(u.push(x)[0] == x);
        assert(u.push(x).drop_first() =~= Seq::<Json>::empty());
        assert(json_view_seq(u.push(x)) == seq![json_view(u.push(x)[0])] + json_view_seq(
            u.push(x).drop_first(),
        ));
        assert(json_view_seq(Seq::<Json>::empty()) =~= Seq::<JsonV>::empty());
        assert(json_view_seq(u) =~= Seq::<JsonV>::empty());
        assert(json_view_seq(u.push(x)) =~= json_view_seq(u).push(json_view(x)));
    } else {
        lemma_json_view_seq_push(u.drop_first(), x);
        assert(u.push(x).drop_first() =~= u.drop_first().push(x));
        assert(u.push(x)[0] == u[0]);
        assert(json_view_seq(u.push(x)) =~= json_view_seq(u).push(json_view(x)));
    }
}

/// The view of a pushed member comes last.
pub proof fn lemma_json_view_members_push(u: Seq<(String, Json)>, x: (String, Json))
    ensures
        json_view_members(u.push(x)) == json_view_members(u).push((x.0@, json_view(x.1))),
    decreases u,
{
    if u.len() == 0 {
        assert(u.push(x)[0] == x);
        assert(u.push(x).drop_first() =~= Seq::<(String, Json)>::empty());
        assert(json_view_members(u.push(x)) == seq![(u.push(x)[0].0@, json_view(u.push(x)[0].1))]
            + json_view_members(u.push(x).drop_first()));
        assert(json_view_members(Seq::<(String, Json)>::empty()) =~= Seq::<(Seq<char>, JsonV)>::empty());
        assert(json_view_members(u) =~= Seq::<(Seq<char>, JsonV)>::empty());
        assert(json_view_members(u.push(x)) =~= json_view_members(u).push((x.0@, json_view(x.1))));
    } else {
        lemma_json_view_members_push(u.drop_first(), x);
        assert(u.push(x).drop_first() =~= u.drop_first().push(x));
        assert(u.push(x)[0] == u[0]);
        assert(json_view_members(u.push(x)) =~= json_view_members(u).push((x.0@, json_view(x.1))));
    }
}

/// Parses the remaining items of an array whose opening bracket, and the
/// items already in `items`, have been consumed up to position `p`.
#[verifier::rlimit(60)]
fn parse_array_rest(s: &Vec<char>, p: usize, items: Vec<Json>, Ghost(i): Ghost<int>) -> (r: (
    usize,
    Option<Json>,
))
    requires
        0 <= i < p <= s@.len(),
        forall|v: JsonV, rest: Seq<char>| #[trigger] canon_at(s@, i, v, rest) ==> ({
            let k = items@.len() as int;
            &&& v is Arr
            &&& k < v->Arr_0.len()
            &&& json_view_seq(items@) == v->Arr_0.take(k)
            &&& s@.skip(p as int) == ser_items(v->Arr_0.skip(k)) + (seq![']'] + rest)
        }),
    ensures
        p <= r.0 <= s@.len(),
        forall|v: JsonV, rest: Seq<char>| #[trigger] canon_at(s@, i, v, rest) ==> (r.1 matches
            Some(out) && out@ == v && r.0 == i + ser_json(v).len()),
    decreases s@.len() - p, 1nat,
{
    let mut items = items;
    proof {
        assert forall|v: JsonV, rest: Seq<char>| #[trigger] canon_at(s@, i, v, rest) implies ({
            let k = items@.len() as int;
            let a = v->Arr_0;
            let tail = if a.len() - k == 1 {
                seq![']'] + rest
            } else {
                seq![','] + (ser_items(a.skip(k + 1)) + (seq![']'] + rest))
            };
            &&& canon_at(s@, p as int, a[k], tail)
            &&& wf_jv(a[k])
        }) by {
            let k = items@.len() as int;
            let a = v->Arr_0;
            let su = a.skip(k);
            assert(su.len() == a.len() - k >= 1);
            assert(su[0] == a[k]);
            assert(wf_jv(a[k]));
            if su.len() == 1 {
                assert(ser_items(su) == ser_json(a[k]));
                assert(ser_items(su) + (seq![']'] + rest) =~= ser_json(a[k]) + (seq![']'] + rest));
            } else {
                assert(su.drop_first() =~= a.skip(k + 1));
                assert(ser_items(su) == ser_json(a[k]) + seq![','] + ser_items(a.skip(k + 1)));
                assert(ser_items(su) + (seq![']'] + rest) =~= ser_json(a[k]) + (seq![','] + (
                ser_items(a.skip(k + 1)) + (seq![']'] + rest))));
            }
            assert(0 <= p <= s@.len());
        }
    }
    let (q, ov) = parse_value(s, p);
    let x = match ov {
        Some(x) => x,
        None => {
            return (p, None);
        },
    };
    let w = skip_ws(s, q);
    proof {
        assert forall|v: JsonV, rest: Seq<char>| #[trigger] canon_at(s@, i, v, rest) implies ({
            let k = items@.len() as int;
            let a = v->Arr_0;
            &&& x@ == a[k]
            &&& w == q
            &&& (if a.len() - k == 1 {
                s@.skip(q as int) == seq![']'] + rest
            } else {
                s@.skip(q as int) == seq![','] + (ser_items(a.skip(k + 1)) + (seq![']'] + rest))
            })
        }) by {
            let k = items@.len() as int;
            let a = v->Arr_0;
            let tail = if a.len() - k == 1 {
                seq![']'] + rest
            } else {
                seq![','] + (ser_items(a.skip(k + 1)) + (seq![']'] + rest))
            };
            assert(canon_at(s@, p as int, a[k], tail));
            lemma_skip_prefix(s@, p as int, ser_json(a[k]), tail);
            if a.len() - k == 1 {
                assert((seq![']'] + rest)[0] == ']');
            } else {
                assert((seq![','] + (ser_items(a.skip(k + 1)) + (seq![']'] + rest)))[0] == ',');
            }
            assert(s@.skip(q as int)[0] == s@[q as int]);
            assert(!is_ws(s@[q as int]));
        }
    }
    let ghost items0 = items@;
    items.push(x);
    proof {
        assert(items@ == items0.push(x));
        lemma_json_view_seq_push(items0, x);
        assert(json_view_seq(items@) == json_view_seq(items0).push(json_view(x)));
    }
    if w < s.len() && s[w] == ',' {
        proof {
            assert forall|v: JsonV, rest: Seq<char>| #[trigger] canon_at(s@, i, v, rest) implies ({
                let k = items@.len() as int;
                let a = v->Arr_0;
                &&& v is Arr
                &&& k < a.len()
                &&& json_view_seq(items@) == a.take(k)
                &&& s@.skip(w + 1) == ser_items(a.skip(k)) + (seq![']'] + rest)
            }) by {
                let k = (items@.len() - 1) as int;
                let a = v->Arr_0;
                if a.len() - k == 1 {
                    assert(s@.skip(q as int)[0] == s@[q as int]);
                    assert((seq![']'] + rest)[0] == ']');
                    assert(false);
                }
                lemma_skip_prefix(
                    s@,
                    w as int,
                    seq![','],
                    ser_items(a.skip(k + 1)) + (seq![']'] + rest),
                );
                assert(json_view_seq(items0) == a.take(k));
                assert(json_view(x) == a[k]);
                assert(a.take(k).push(a[k]) =~= a.take(k + 1));
                assert(json_view_seq(items@) == a.take(k + 1));
            }
        }
        parse_array_rest(s, w + 1, items, Ghost(i))
    } else if w < s.len() && s[w] == ']' {
        proof {
            assert forall|v: JsonV, rest: Seq<char>| #[trigger] canon_at(s@, i, v, rest) implies (
            json_view(Json::Arr(items)) == v && w + 1 == i + ser_json(v).len()) by {
                let k = (items@.len() - 1) as int;
                let a = v->Arr_0;
                if a.len() - k != 1 {
                    assert(s@.skip(q as int)[0] == s@[q as int]);
                    assert((seq![','] + (ser_items(a.skip(k + 1)) + (seq![']'] + rest)))[0] == ',');
                    assert(false);
                }
                assert(json_view_seq(items0) == a.take(k));
                assert(json_view(x) == a[k]);
                assert(a.take(k).push(a[k]) =~= a.take(k + 1));
                assert(a.take(k + 1) =~= a);
                assert(json_view_seq(items@) == a);
                assert(json_view(Json::Arr(items)) =~~= v);
                assert(s@.skip(q as int).len() == 1 + rest.len());
                lemma_canon_facts(s@, i, v, rest);
            }
        }
        (w + 1, Some(Json::Arr(items)))
    } else {
        proof {
            assert forall|v: JsonV, rest: Seq<char>| !(#[trigger] canon_at(s@, i, v, rest)) by {
                if canon_at(s@, i, v, rest) {
                    let k = (items@.len() - 1) as int;
                    let a = v->Arr_0;
                    assert(s@.skip(q as int)[0] == s@[q as int]);
                    if a.len() - k == 1 {
                        assert((seq![']'] + rest)[0] == ']');
                        assert(s@.skip(q as int).len() >= 1);
                    } else {
                        assert((seq![','] + (ser_items(a.skip(k + 1)) + (seq![']'] + rest)))[0]
                            == ',');
                        assert(s@.skip(q as int).len() >= 1);
                    }
                }
            }
        }
        (p, None)
    }
}

/// Parses the remaining members of an object whose opening brace, and the
/// members already in `members`, have been consumed up to position `p`.
#[verifier::rlimit(60)]
fn parse_obj_rest(s: &Vec<char>, p0: usize, members: Vec<(String, Json)>, Ghost(i): Ghost<int>) -> (r: (
    usize,
    Option<Json>,
))
    requires
        0 <= i < p0 <= s@.len(),
        forall|v: JsonV, rest: Seq<char>| #[trigger] canon_at(s@, i, v, rest) ==> ({
            let k = members@.len() as int;
            &&& v is Obj
            &&& k < v->Obj_0.len()
            &&& json_view_members(members@) == v->Obj_0.take(k)
            &&& s@.skip(p0 as int) == ser_members(v->Obj_0.skip(k)) + (seq!['}'] + rest)
        }),
    ensures
        p0 <= r.0 <= s@.len(),
        forall|v: JsonV, rest: Seq<char>| #[trigger] canon_at(s@, i, v, rest) ==> (r.1 matches
            Some(out) && out@ == v && r.0 == i + ser_json(v).len()),
    decreases s@.len() - p0, 1nat,
{
    let mut members = members;
    let p = skip_ws(s, p0);
    proof {
        assert forall|v: JsonV, rest: Seq<char>| #[trigger] canon_at(s@, i, v, rest) implies p
            == p0 by {
            let k = members@.len() as int;
            let m = v->Obj_0;
            let su = m.skip(k);
            assert(su.len() >= 1);
            assert(su[0] == m[k]);
            if su.len() == 1 {
                assert(ser_members(su) == ser_str(m[k].0) + seq![':'] + ser_json(m[k].1));
                assert(ser_members(su) + (seq!['}'] + rest) =~= ser_str(m[k].0) + (seq![':'] + (
                ser_json(m[k].1) + (seq!['}'] + rest))));
                lemma_skip_prefix(
                    s@,
                    p0 as int,
                    ser_str(m[k].0),
                    seq![':'] + (ser_json(m[k].1) + (seq!['}'] + rest)),
                );
            } else {
                assert(su.drop_first() =~= m.skip(k + 1));
                assert(ser_members(su) == ser_str(m[k].0) + seq![':'] + ser_json(m[k].1) + seq![
                    ','
                ] + ser_members(m.skip(k + 1)));
                assert(ser_members(su) + (seq!['}'] + rest) =~= ser_str(m[k].0) + (seq![':'] + (
                ser_json(m[k].1) + (seq![','] + (ser_members(m.skip(k + 1)) + (seq!['}']
                    + rest))))));
                lemma_skip_prefix(
                    s@,
                    p0 as int,
                    ser_str(m[k].0),
                    seq![':'] + (ser_json(m[k].1) + (seq![','] + (ser_members(m.skip(k + 1)) + (
                    seq!['}'] + rest)))),
                );
            }
            let qq = seq!['"'] + esc_seq(m[k].0);
            assert(ser_str(m[k].0) == qq + seq!['"']);
            assert(qq[0] == '"');
            assert(ser_str(m[k].0)[0] == qq[0]);
            assert(s@[p0 + 0] == ser_str(m[k].0)[0]);
            assert(!is_ws(s@[p0 as int]));
        }
    }
    proof {
        assert forall|v: JsonV, rest: Seq<char>| #[trigger] canon_at(s@, i, v, rest) implies ({
            let k = members@.len() as int;
            let m = v->Obj_0;
            let after = seq![':'] + (ser_json(m[k].1) + (if m.len() - k == 1 {
                seq!['}'] + rest
            } else {
                seq![','] + (ser_members(m.skip(k + 1)) + (seq!['}'] + rest))
            }));
            str_at(s@, p as int, m[k].0, after)
        }) by {
            let k = members@.len() as int;
            let m = v->Obj_0;
            let su = m.skip(k);
            assert(su.len() == m.len() - k >= 1);
            assert(su[0] == m[k]);
            if su.len() == 1 {
                assert(ser_members(su) == ser_str(m[k].0) + seq![':'] + ser_json(m[k].1));
                assert(ser_members(su) + (seq!['}'] + rest) =~= ser_str(m[k].0) + (seq![':'] + (
                ser_json(m[k].1) + (seq!['}'] + rest))));
            } else {
                assert(su.drop_first() =~= m.skip(k + 1));
                assert(ser_members(su) == ser_str(m[k].0) + seq![':'] + ser_json(m[k].1) + seq![',']
                    + ser_members(m.skip(k + 1)));
                assert(ser_members(su) + (seq!['}'] + rest) =~= ser_str(m[k].0) + (seq![':'] + (
                ser_json(m[k].1) + (seq![','] + (ser_members(m.skip(k + 1)) + (seq!['}']
                    + rest))))));
            }
        }
    }
    let (kq, okey) = parse_string(s, p);
    let key = match okey {
        Some(t) => t,
        None => {
            return (p, None);
        },
    };
    let cw = skip_ws(s, kq);
    proof {
        assert forall|v: JsonV, rest: Seq<char>| #[trigger] canon_at(s@, i, v, rest) implies ({
            let k = members@.len() as int;
            let m = v->Obj_0;
            let tail = if m.len() - k == 1 {
                seq!['}'] + rest
            } else {
                seq![','] + (ser_members(m.skip(k + 1)) + (seq!['}'] + rest))
            };
            &&& key@ == m[k].0
            &&& cw == kq
            &&& kq < s@.len()
            &&& s@[kq as int] == ':'
            &&& canon_at(s@, kq + 1, m[k].1, tail)
        }) by {
            let k = members@.len() as int;
            let m = v->Obj_0;
            let tail = if m.len() - k == 1 {
                seq!['}'] + rest
            } else {
                seq![','] + (ser_members(m.skip(k + 1)) + (seq!['}'] + rest))
            };
            let after = seq![':'] + (ser_json(m[k].1) + tail);
            assert(str_at(s@, p as int, m[k].0, after));
            lemma_skip_prefix(s@, p as int, ser_str(m[k].0), after);
            assert(s@.skip(kq as int)[0] == s@[kq as int]);
            assert(after[0] == ':');
            assert(!is_ws(s@[kq as int]));
            lemma_skip_prefix(s@, kq as int, seq![':'], ser_json(m[k].1) + tail);
            lemma_ser_json_first(m[k].1);
        }
    }
    if !(cw < s.len() && s[cw] == ':') {
        return (p, None);
    }
    let (q, ov) = parse_value(s, cw + 1);
    let x = match ov {
        Some(x) => x,
        None => {
            return (p, None);
        },
    };
    let w = skip_ws(s, q);
    proof {
        assert forall|v: JsonV, rest: Seq<char>| #[trigger] canon_at(s@, i, v, rest) implies ({
            let k = members@.len() as int;
            let m = v->Obj_0;
            &&& x@ == m[k].1
            &&& w == q
            &&& (if m.len() - k == 1 {
                s@.skip(q as int) == seq!['}'] + rest
            } else {
                s@.skip(q as int) == seq![','] + (ser_members(m.skip(k + 1)) + (seq!['}'] + rest))
            })
        }) by {
            let k = members@.len() as int;
            let m = v->Obj_0;
            let tail = if m.len() - k == 1 {
                seq!['}'] + rest
            } else {
                seq![','] + (ser_members(m.skip(k + 1)) + (seq!['}'] + rest))
            };
            assert(canon_at(s@, kq + 1, m[k].1, tail));
            lemma_skip_prefix(s@, kq + 1, ser_json(m[k].1), tail);
            if m.len() - k == 1 {
                assert((seq!['}'] + rest)[0] == '}');
            } else {
                assert((seq![','] + (ser_members(m.skip(k + 1)) + (seq!['}'] + rest)))[0] == ',');
            }
            assert(s@.skip(q as int)[0] == s@[q as int]);
            assert(!is_ws(s@[q as int]));
        }
    }
    let ghost members0 = members@;
    members.push((key, x));
    proof {
        assert(members@ == members0.push((key, x)));
        lemma_json_view_members_push(members0, (key, x));
        assert(json_view_members(members@) == json_view_members(members0).push((key@, json_view(x))));
    }
    if w < s.len() && s[w] == ',' {
        proof {
            assert forall|v: JsonV, rest: Seq<char>| #[trigger] canon_at(s@, i, v, rest) implies ({
                let k = members@.len() as int;
                let m = v->Obj_0;
                &&& v is Obj
                &&& k < m.len()
                &&& json_view_members(members@) == m.take(k)
                &&& s@.skip(w + 1) == ser_members(m.skip(k)) + (seq!['}'] + rest)
            }) by {
                let k = (members@.len() - 1) as int;
                let m = v->Obj_0;
                if m.len() - k == 1 {
                    assert(s@.skip(q as int)[0] == s@[q as int]);
                    assert((seq!['}'] + rest)[0] == '}');
                    assert(false);
                }
                lemma_skip_prefix(
                    s@,
                    w as int,
                    seq![','],
                    ser_members(m.skip(k + 1)) + (seq!['}'] + rest),
                );
                assert(json_view_members(members0) == m.take(k));
                assert(key@ == m[k].0 && json_view(x) == m[k].1);
                assert((key@, json_view(x)) == m[k]);
                assert(m.take(k).push(m[k]) =~= m.take(k + 1));
                assert(json_view_members(members@) == m.take(k + 1));
            }
        }
        parse_obj_rest(s, w + 1, members, Ghost(i))
    } else if w < s.len() && s[w] == '}' {
        proof {
            assert forall|v: JsonV, rest: Seq<char>| #[trigger] canon_at(s@, i, v, rest) implies (
            json_view(Json::Obj(members)) == v && w + 1 == i + ser_json(v).len()) by {
                let k = (members@.len() - 1) as int;
                let m = v->Obj_0;
                if m.len() - k != 1 {
                    assert(s@.skip(q as int)[0] == s@[q as int]);
                    assert((seq![','] + (ser_members(m.skip(k + 1)) + (seq!['}'] + rest)))[0]
                        == ',');
                    assert(false);
                }
                assert(json_view_members(members0) == m.take(k));
                assert(key@ == m[k].0 && json_view(x) == m[k].1);
                assert((key@, json_view(x)) == m[k]);
                assert(m.take(k).push(m[k]) =~= m.take(k + 1));
                assert(m.take(k + 1) =~= m);
                assert(json_view_members(members@) == m);
                assert(json_view(Json::Obj(members)) =~~= v);
                assert(s@.skip(q as int).len() == 1 + rest.len());
                lemma_canon_facts(s@, i, v, rest);
            }
        }
        (w + 1, Some(Json::Obj(members)))
    } else {
        proof {
            assert forall|v: JsonV, rest: Seq<char>| !(#[trigger] canon_at(s@, i, v, rest)) by {
                if canon_at(s@, i, v, rest) {
                    let k = (members@.len() - 1) as int;
                    let m = v->Obj_0;
                    assert(s@.skip(q as int)[0] == s@[q as int]);
                    if m.len() - k == 1 {
                        assert((seq!['}'] + rest)[0] == '}');
                        assert(s@.skip(q as int).len() >= 1);
                    } else {
                        assert((seq![','] + (ser_members(m.skip(k + 1)) + (seq!['}'] + rest)))[0]
                            == ',');
                        assert(s@.skip(q as int).len() >= 1);
                    }
                }
            }
        }
        (p, None)
    }
}

/// A deep copy of `v`, with the same model.
pub fn clone_json(v: &Json) -> (r: Json)
    ensures
        r@ == v@,
    decreases *v, 0nat,
{
    match v {
        Json::Null => Json::Null,
        Json::Bool(b) => Json::Bool(*b),
        Json::Int(n) => Json::Int(*n),
        Json::Str(s) => Json::Str(s.clone()),
        Json::Arr(a) => {
            let out = clone_items(a, 0);
            proof {
                lemma_json_view_seq_index(a@);
                assert(json_view_seq(a@).skip(0) =~= json_view_seq(out@));
                assert(json_view_seq(out@) =~~= json_view_seq(a@));
            }
            Json::Arr(out)
        },
        Json::Obj(m) => {
            let out = clone_members(m, 0);
            proof {
                lemma_json_view_members_index(m@);
                assert(json_view_members(m@).skip(0) =~= json_view_members(out@));
                assert(json_view_members(out@) =~~= json_view_members(m@));
            }
            Json::Obj(out)
        },
    }
}

/// Deep copies of the elements of `a` from index `i` on.
fn clone_items(a: &Vec<Json>, i: usize) -> (r: Vec<Json>)
    requires
        i <= a@.len(),
    ensures
        json_view_seq(r@) == json_view_seq(a@).skip(i as int),
    decreases a@, 1nat, a@.len() - i,
{
    proof {
        lemma_json_view_seq_index(a@);
    }
    if i < a.len() {
        proof {
            assert(decreases_to!(a@ => a@[i as int]));
        }
        let x = clone_json(&a[i]);
        let mut rest = clone_items(a, i + 1);
        let ghost xv = x@;
        let mut out: Vec<Json> = Vec::new();
        out.push(x);
        let ghost out1 = out@;
        let ghost rest0 = rest@;
        out.append(&mut rest);
        proof {
            let s = json_view_seq(a@);
            assert(out1.len() == 1 && json_view(out1[0]) == xv);
            assert(out@ == out1 + rest0);
            lemma_json_view_seq_concat(out1, rest0);
            assert(out1.drop_first() =~= Seq::<Json>::empty());
            assert(json_view_seq(Seq::<Json>::empty()) =~= Seq::<JsonV>::empty());
            assert(json_view_seq(out1) =~= seq![xv]);
            assert(s.skip(i as int)[0] == s[i as int]);
            assert(s.skip(i as int).drop_first() =~= s.skip(i + 1));
            assert(json_view_seq(out@) =~= s.skip(i as int));
        }
        out
    } else {
        let out: Vec<Json> = Vec::new();
        proof {
            assert(json_view_seq(out@) =~= json_view_seq(a@).skip(i as int));
        }
        out
    }
}

/// Deep copies of the members of `m` from index `i` on.
fn clone_members(m: &Vec<(String, Json)>, i: usize) -> (r: Vec<(String, Json)>)
    requires
        i <= m@.len(),
    ensures
        json_view_members(r@) == json_view_members(m@).skip(i as int),
    decreases m@, 1nat, m@.len() - i,
{
    proof {
        lemma_json_view_members_index(m@);
    }
    if i < m.len() {
        proof {
            assert(decreases_to!(m@ => m@[i as int]));
            assert(decreases_to!(m@[i as int] => m@[i as int].1));
        }
        let kk = m[i].0.clone();
        let x = clone_json(&m[i].1);
        let mut rest = clone_members(m, i + 1);
        let ghost kv = kk@;
        let ghost xv = x@;
        let mut out: Vec<(String, Json)> = Vec::new();
        out.push((kk, x));
        let ghost out1 = out@;
        let ghost rest0 = rest@;
        out.append(&mut rest);
        proof {
            let s = json_view_members(m@);
            assert(out1.len() == 1 && out1[0].0@ == kv && json_view(out1[0].1) == xv);
            assert(out@ == out1 + rest0);
            lemma_json_view_members_concat(out1, rest0);
            assert(out1.drop_first() =~= Seq::<(String, Json)>::empty());
            assert(json_view_members(Seq::<(String, Json)>::empty()) =~= Seq::<(Seq<char>, JsonV)>::empty());
            assert(json_view_members(out1) =~= seq![(kv, xv)]);
            assert(s.skip(i as int)[0] == s[i as int]);
            assert(s.skip(i as int).drop_first() =~= s.skip(i + 1));
            assert(json_view_members(out@) =~= s.skip(i as int));
        }
        out
    } else {
        let out: Vec<(String, Json)> = Vec::new();
        proof {
            assert(json_view_members(out@) =~= json_view_members(m@).skip(i as int));
        }
        out
    }
}

/// Views distribute over concatenation.
pub proof fn lemma_json_view_seq_concat(a: Seq<Json>, b: Seq<Json>)
    ensures
        json_view_seq(a + b) == json_view_seq(a) + json_view_seq(b),
    decreases a,
{
    if a.len() == 0 {
        assert(a + b =~= b);
        assert(json_view_seq(a) =~= Seq::<JsonV>::empty());
        assert(json_view_seq(a + b) =~= json_view_seq(a) + json_view_seq(b));
    } else {
        lemma_json_view_seq_concat(a.drop_first(), b);
        assert((a + b).drop_first() =~= a.drop_first() + b);
        assert((a + b)[0] == a[0]);
        assert(json_view_seq(a + b) =~= json_view_seq(a) + json_view_seq(b));
    }
}

/// Member views distribute over concatenation.
pub proof fn lemma_json_view_members_concat(a: Seq<(String, Json)>, b: Seq<(String, Json)>)
    ensures
        json_view_members(a + b) == json_view_members(a) + json_view_members(b),
    decreases a,
{
    if a.len() == 0 {
        assert(a + b =~= b);
        assert(json_view_members(a) =~= Seq::<(Seq<char>, JsonV)>::empty());
        assert(json_view_members(a + b) =~= json_view_members(a) + json_view_members(b));
    } else {
        lemma_json_view_members_concat(a.drop_first(), b);
        assert((a + b).drop_first() =~= a.drop_first() + b);
        assert((a + b)[0] == a[0]);
        assert(json_view_members(a + b) =~= json_view_members(a) + json_view_members(b));
    }
}

/// Whether everything from `i` to the end is whitespace.
pub fn ws_to_end(s: &Vec<char>, i: usize) -> (r: bool)
    requires
        i <= s@.len(),
    ensures
        r == (forall|k: int| i <= k < s@.len() ==> is_ws(#[trigger] s@[k])),
{
    let mut j = i;
    while j < s.len() && (s[j] == ' ' || s[j] == '\n' || s[j] == '\r' || s[j] == '\t')
        invariant
            i <= j <= s@.len(),
            forall|k: int| i <= k < j ==> is_ws(#[trigger] s@[k]),
        decreases s@.len() - j,
    {
        j = j + 1;
    }
    if j < s.len() {
        proof {
            assert(!is_ws(s@[j as int]));
        }
        false
    } else {
        true
    }
}

/// Parses any JSON value at `i`: whitespace around structure, any member
/// order and unknown members are taken as the grammar allows. On serializer
/// output followed by a delimiter it returns exactly the serialized value
/// and stops exactly at its end.
#[verifier::rlimit(60)]
pub fn parse_value(s: &Vec<char>, i: usize) -> (r: (usize, Option<Json>))
    requires
        i <= s@.len(),
    ensures
        i <= r.0 <= s@.len(),
        r.1 is Some ==> r.0 > i,
        forall|v: JsonV, rest: Seq<char>| #[trigger] canon_at(s@, i as int, v, rest) ==> (r.1
            matches Some(out) && out@ == v && r.0 == i + ser_json(v).len()),
    decreases s@.len() - i, 0nat,
{
    let j = skip_ws(s, i);
    proof {
        assert forall|v: JsonV, rest: Seq<char>| #[trigger] canon_at(s@, i as int, v, rest)
            implies j == i by {
            lemma_canon_facts(s@, i as int, v, rest);
        }
    }
    if j >= s.len() {
        proof {
            assert forall|v: JsonV, rest: Seq<char>| !(#[trigger] canon_at(s@, i as int, v, rest))
                by {
                if canon_at(s@, i as int, v, rest) {
                    lemma_canon_facts(s@, i as int, v, rest);
                }
            }
        }
        return (i, None);
    }
    let c = s[j];
    if c == 'n' {
        if s.len() - j >= 4 && s[j + 1] == 'u' && s[j + 2] == 'l' && s[j + 3] == 'l' {
            proof {
                assert forall|v: JsonV, rest: Seq<char>| #[trigger] canon_at(s@, i as int, v, rest)
                    implies (v is Null && ser_json(v).len() == 4) by {
                    lemma_canon_facts(s@, i as int, v, rest);
                }
            }
            return (j + 4, Some(Json::Null));
        }
        proof {
            assert forall|v: JsonV, rest: Seq<char>| !(#[trigger] canon_at(s@, i as int, v, rest))
                by {
                if canon_at(s@, i as int, v, rest) {
                    lemma_canon_facts(s@, i as int, v, rest);
                    assert(s@[i + 1] == 'u' && s@[i + 2] == 'l' && s@[i + 3] == 'l');
                }
            }
        }
        return (i, None);
    } else if c == 't' {
        if s.len() - j >= 4 && s[j + 1] == 'r' && s[j + 2] == 'u' && s[j + 3] == 'e' {
            proof {
                assert forall|v: JsonV, rest: Seq<char>| #[trigger] canon_at(s@, i as int, v, rest)
                    implies (v == JsonV::Bool(true) && ser_json(v).len() == 4) by {
                    lemma_canon_facts(s@, i as int, v, rest);
                    if v is Bool && !v->Bool_0 {
                        assert(s@[i + 1] == 'a');
                    }
                }
            }
            return (j + 4, Some(Json::Bool(true)));
        }
        proof {
            assert forall|v: JsonV, rest: Seq<char>| !(#[trigger] canon_at(s@, i as int, v, rest))
                by {
                if canon_at(s@, i as int, v, rest) {
                    lemma_canon_facts(s@, i as int, v, rest);
                    if v->Bool_0 {
                        assert(s@[i + 1] == 'r' && s@[i + 2] == 'u' && s@[i + 3] == 'e');
                    } else {
                        assert(s@[i + 1] == 'a');
                    }
                }
            }
        }
        return (i, None);
    } else if c == 'f' {
        if s.len() - j >= 5 && s[j + 1] == 'a' && s[j + 2] == 'l' && s[j + 3] == 's' && s[j + 4]
            == 'e' {
            proof {
                assert forall|v: JsonV, rest: Seq<char>| #[trigger] canon_at(s@, i as int, v, rest)
                    implies (v == JsonV::Bool(false) && ser_json(v).len() == 5) by {
                    lemma_canon_facts(s@, i as int, v, rest);
                    if v is Bool && v->Bool_0 {
                        assert(s@[i + 1] == 'r');
                    }
                }
            }
            return (j + 5, Some(Json::Bool(false)));
        }
        proof {
            assert forall|v: JsonV, rest: Seq<char>| !(#[trigger] canon_at(s@, i as int, v, rest))
                by {
                if canon_at(s@, i as int, v, rest) {
                    lemma_canon_facts(s@, i as int, v, rest);
                    if v->Bool_0 {
                        assert(s@[i + 1] == 'r');
                    } else {
                        assert(s@[i + 1] == 'a' && s@[i + 2] == 'l' && s@[i + 3] == 's' && s@[i + 4]
                            == 'e');
                    }
                }
            }
        }
        return (i, None);
    } else if c == '-' || ('0' <= c && c <= '9') {
        proof {
            assert forall|v: JsonV, rest: Seq<char>| #[trigger] canon_at(s@, i as int, v, rest)
                implies (v is Int && int_at(s@, i as int, v->Int_0, rest)) by {
                lemma_canon_facts(s@, i as int, v, rest);
            }
        }
        let (q, on) = parse_int(s, j);
        match on {
            Some(x) => (q, Some(Json::Int(x))),
            None => (i, None),
        }
    } else if c == '"' {
        proof {
            assert forall|v: JsonV, rest: Seq<char>| #[trigger] canon_at(s@, i as int, v, rest)
                implies (v is Str && str_at(s@, i as int, v->Str_0, rest)) by {
                lemma_canon_facts(s@, i as int, v, rest);
            }
        }
        let (q, ot) = parse_string(s, j);
        match ot {
            Some(t) => (q, Some(Json::Str(t))),
            None => (i, None),
        }
    } else if c == '[' {
        proof {
            assert forall|v: JsonV, rest: Seq<char>| #[trigger] canon_at(s@, i as int, v, rest)
                implies (v is Arr && s@.skip(j + 1) == ser_items(v->Arr_0) + (seq![']'] + rest))
                by {
                lemma_canon_facts(s@, i as int, v, rest);
                let a = v->Arr_0;
                assert(ser_json(v) == seq!['['] + ser_items(a) + seq![']']);
                assert((seq!['['] + ser_items(a) + seq![']']) + rest =~= seq!['['] + (ser_items(a)
                    + (seq![']'] + rest)));
                lemma_skip_prefix(s@, i as int, seq!['['], ser_items(a) + (seq![']'] + rest));
            }
        }
        let p = skip_ws(s, j + 1);
        proof {
            assert forall|v: JsonV, rest: Seq<char>| #[trigger] canon_at(s@, i as int, v, rest)
                implies (p == j + 1 && j + 1 < s@.len()) by {
                let a = v->Arr_0;
                lemma_skip_prefix(s@, j + 1, ser_items(a), seq![']'] + rest);
                assert(s@.skip(j + 1)[0] == s@[j + 1]);
                if a.len() == 0 {
                    assert((seq![']'] + rest)[0] == ']');
                } else {
                    lemma_ser_json_first(a[0]);
                    assert(ser_items(a)[0] == ser_json(a[0])[0]);
                }
                assert(!is_ws(s@[j + 1]));
            }
        }
        if p < s.len() && s[p] == ']' {
            let items: Vec<Json> = Vec::new();
            proof {
                assert forall|v: JsonV, rest: Seq<char>| #[trigger] canon_at(s@, i as int, v, rest)
                    implies (v->Arr_0.len() == 0 && p + 1 == i + ser_json(v).len() && json_view(
                    Json::Arr(items),
                ) == v) by {
                    let a = v->Arr_0;
                    lemma_skip_prefix(s@, j + 1, ser_items(a), seq![']'] + rest);
                    assert(s@.skip(j + 1)[0] == s@[j + 1]);
                    if a.len() > 0 {
                        lemma_ser_json_first(a[0]);
                        assert(ser_items(a)[0] == ser_json(a[0])[0]);
                        assert(s@[j + 1] != ']');
                    }
                    assert(json_view_seq(items@) =~= a);
                    assert(json_view(Json::Arr(items)) =~~= v);
                }
            }
            return (p + 1, Some(Json::Arr(items)));
        }
        proof {
            assert forall|v: JsonV, rest: Seq<char>| #[trigger] canon_at(s@, i as int, v, rest)
                implies ({
                let a = v->Arr_0;
                &&& v is Arr
                &&& 0 < a.len()
                &&& json_view_seq(Seq::<Json>::empty()) == a.take(0)
                &&& s@.skip(p as int) == ser_items(a.skip(0)) + (seq![']'] + rest)
            }) by {
                let a = v->Arr_0;
                if a.len() == 0 {
                    lemma_skip_prefix(s@, j + 1, ser_items(a), seq![']'] + rest);
                    assert(s@.skip(j + 1)[0] == s@[j + 1]);
                    assert((seq![']'] + rest)[0] == ']');
                    assert(s@.skip(j + 1).len() == 1 + rest.len());
                    assert(false);
                }
                assert(a.skip(0) =~= a);
                assert(json_view_seq(Seq::<Json>::empty()) =~= a.take(0));
            }
        }
        let items: Vec<Json> = Vec::new();
        let (q, ov) = parse_array_rest(s, p, items, Ghost(i as int));
        (q, ov)
    } else if c == '{' {
        proof {
            assert forall|v: JsonV, rest: Seq<char>| #[trigger] canon_at(s@, i as int, v, rest)
                implies (v is Obj && s@.skip(j + 1) == ser_members(v->Obj_0) + (seq!['}'] + rest))
                by {
                lemma_canon_facts(s@, i as int, v, rest);
                let m = v->Obj_0;
                assert(ser_json(v) == seq!['{'] + ser_members(m) + seq!['}']);
                assert((seq!['{'] + ser_members(m) + seq!['}']) + rest =~= seq!['{'] + (ser_members(
                    m,
                ) + (seq!['}'] + rest)));
                lemma_skip_prefix(s@, i as int, seq!['{'], ser_members(m) + (seq!['}'] + rest));
            }
        }
        let p = skip_ws(s, j + 1);
        proof {
            assert forall|v: JsonV, rest: Seq<char>| #[trigger] canon_at(s@, i as int, v, rest)
                implies (p == j + 1 && j + 1 < s@.len()) by {
                let m = v->Obj_0;
                lemma_skip_prefix(s@, j + 1, ser_members(m), seq!['}'] + rest);
                assert(s@.skip(j + 1)[0] == s@[j + 1]);
                if m.len() == 0 {
                    assert((seq!['}'] + rest)[0] == '}');
                } else {
                    assert(ser_members(m)[0] == ser_str(m[0].0)[0]);
                    assert(ser_str(m[0].0)[0] == '"');
                }
                assert(!is_ws(s@[j + 1]));
            }
        }
        if p < s.len() && s[p] == '}' {
            let members: Vec<(String, Json)> = Vec::new();
            proof {
                assert forall|v: JsonV, rest: Seq<char>| #[trigger] canon_at(s@, i as int, v, rest)
                    implies (v->Obj_0.len() == 0 && p + 1 == i + ser_json(v).len() && json_view(
                    Json::Obj(members),
                ) == v) by {
                    let m = v->Obj_0;
                    lemma_skip_prefix(s@, j + 1, ser_members(m), seq!['}'] + rest);
                    assert(s@.skip(j + 1)[0] == s@[j + 1]);
                    if m.len() > 0 {
                        assert(ser_members(m)[0] == ser_str(m[0].0)[0]);
                        assert(ser_str(m[0].0)[0] == '"');
                        assert(s@[j + 1] != '}');
                    }
                    assert(json_view_members(members@) =~= m);
                    assert(json_view(Json::Obj(members)) =~~= v);
                }
            }
            return (p + 1, Some(Json::Obj(members)));
        }
        proof {
            assert forall|v: JsonV, rest: Seq<char>| #[trigger] canon_at(s@, i as int, v, rest)
                implies ({
                let m = v->Obj_0;
                &&& v is Obj
                &&& 0 < m.len()
                &&& json_view_members(Seq::<(String, Json)>::empty()) == m.take(0)
                &&& s@.skip(p as int) == ser_members(m.skip(0)) + (seq!['}'] + rest)
            }) by {
                let m = v->Obj_0;
                if m.len() == 0 {
                    lemma_skip_prefix(s@, j + 1, ser_members(m), seq!['}'] + rest);
                    assert(s@.skip(j + 1)[0] == s@[j + 1]);
                    assert((seq!['}'] + rest)[0] == '}');
                    assert(s@.skip(j + 1).len() == 1 + rest.len());
                    assert(false);
                }
                assert(m.skip(0) =~= m);
                assert(json_view_members(Seq::<(String, Json)>::empty()) =~= m.take(0));
            }
        }
        let members: Vec<(String, Json)> = Vec::new();
        let (q, ov) = parse_obj_rest(s, p, members, Ghost(i as int));
        (q, ov)
    } else {
        proof {
            assert forall|v: JsonV, rest: Seq<char>| !(#[trigger] canon_at(s@, i as int, v, rest))
                by {
                if canon_at(s@, i as int, v, rest) {
                    lemma_canon_facts(s@, i as int, v, rest);
                }
            }
        }
        (i, None)
    }
}

} // verus!

