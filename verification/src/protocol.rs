//! Wire protocol codec.
//!
//! Messages cross the transport as text frames holding a tagged JSON object,
//! one of `{"WelcomeClient":null}`, `{"Data":[..bytes..]}` or
//! `{"DataLocation":"..path.."}`. Bytes are written as decimal numbers without
//! leading zeros; a path string escapes `"` and `\` with a backslash and takes
//! every other character literally. [`spec_encode`] is the single definition
//! of the encoding; [`encode`] produces exactly it and [`decode`] accepts a
//! text if and only if it is the encoding of some message.

use vstd::prelude::*;

verus! {

/// A wire protocol message.
#[derive(Clone, Debug, PartialEq, Eq)]
pub enum Message {
    /// Sent once to each client right after its transport upgrade.
    WelcomeClient,
    /// An opaque binary payload (a rendered frame); producer to server only.
    Data(Vec<u8>),
    /// A filesystem path pointing at the staged payload; server to client only.
    DataLocation(String),
}

/// Mathematical model of a [`Message`].
pub enum MessageModel {
    WelcomeClient,
    Data(Seq<u8>),
    DataLocation(Seq<char>),
}

impl View for Message {
    type V = MessageModel;

    open spec fn view(&self) -> MessageModel {
        match self {
            Message::WelcomeClient => MessageModel::WelcomeClient,
            Message::Data(b) => MessageModel::Data(b@),
            Message::DataLocation(p) => MessageModel::DataLocation(p@),
        }
    }
}

/// Error for a text that is not the encoding of any message.
#[derive(Clone, Copy, Debug, PartialEq, Eq, Structural)]
pub struct MalformedMessage;

/// The full encoding of `WelcomeClient`.
pub open spec fn welcome_text() -> Seq<char> {
    seq!['{', '"', 'W', 'e', 'l', 'c', 'o', 'm', 'e', 'C', 'l', 'i', 'e', 'n', 't', '"', ':',
        'n', 'u', 'l', 'l', '}']
}

/// Everything of a `Data` encoding before the byte list.
pub open spec fn data_prefix() -> Seq<char> {
    seq!['{', '"', 'D', 'a', 't', 'a', '"', ':', '[']
}

/// Everything of a `DataLocation` encoding before the path characters.
pub open spec fn location_prefix() -> Seq<char> {
    seq!['{', '"', 'D', 'a', 't', 'a', 'L', 'o', 'c', 'a', 't', 'i', 'o', 'n', '"', ':', '"']
}

/// The decimal digit character for `d`.
pub open spec fn spec_digit(d: u8) -> char
    recommends
        d < 10,
{
    if d == 0 {
        '0'
    } else if d == 1 {
        '1'
    } else if d == 2 {
        '2'
    } else if d == 3 {
        '3'
    } else if d == 4 {
        '4'
    } else if d == 5 {
        '5'
    } else if d == 6 {
        '6'
    } else if d == 7 {
        '7'
    } else if d == 8 {
        '8'
    } else {
        '9'
    }
}

/// Whether `c` is a decimal digit character.
pub open spec fn is_digit(c: char) -> bool {
    c == '0' || c == '1' || c == '2' || c == '3' || c == '4' || c == '5' || c == '6' || c == '7'
        || c == '8' || c == '9'
}

/// Canonical decimal encoding of one byte: no leading zeros.
pub open spec fn spec_encode_byte(n: u8) -> Seq<char> {
    if n < 10 {
        seq![spec_digit(n)]
    } else if n < 100 {
        seq![spec_digit(n / 10), spec_digit(n % 10)]
    } else {
        seq![spec_digit(n / 100), spec_digit((n / 10) % 10), spec_digit(n % 10)]
    }
}

/// Comma-separated encoding of a byte sequence.
pub open spec fn spec_encode_bytes(b: Seq<u8>) -> Seq<char>
    decreases b.len(),
{
    if b.len() == 0 {
        Seq::empty()
    } else if b.len() == 1 {
        spec_encode_byte(b[0])
    } else {
        spec_encode_byte(b[0]) + seq![','] + spec_encode_bytes(b.skip(1))
    }
}

/// Escaping of one path character: `"` and `\` get a backslash, the rest
/// stand for themselves.
pub open spec fn spec_escape_char(c: char) -> Seq<char> {
    if c == '"' {
        seq!['\\', '"']
    } else if c == '\\' {
        seq!['\\', '\\']
    } else {
        seq![c]
    }
}

/// Escaping of a whole path string.
pub open spec fn spec_escape(s: Seq<char>) -> Seq<char>
    decreases s.len(),
{
    if s.len() == 0 {
        Seq::empty()
    } else {
        spec_escape_char(s[0]) + spec_escape(s.skip(1))
    }
}

/// The text encoding of a message: the one definition both codec directions
/// are held to.
pub open spec fn spec_encode(m: MessageModel) -> Seq<char> {
    match m {
        MessageModel::WelcomeClient => welcome_text(),
        MessageModel::Data(b) => data_prefix() + spec_encode_bytes(b) + seq![']', '}'],
        MessageModel::DataLocation(p) => location_prefix() + spec_escape(p) + seq!['"', '}'],
    }
}

/// A text is decodable when it is the encoding of some message.
pub open spec fn spec_decodable(t: Seq<char>) -> bool {
    exists|m: MessageModel| t == spec_encode(m)
}

/// The message a decodable text encodes (well defined by
/// [`lemma_encode_injective`]).
pub open spec fn spec_decoded(t: Seq<char>) -> MessageModel
    recommends
        spec_decodable(t),
{
    choose|m: MessageModel| t == spec_encode(m)
}

/// Relies on `Iterator::collect` for `Vec<char>` over `str::chars`: the
/// characters of the string, in order.
#[verifier::external_body]
fn chars_of(s: &str) -> (r: Vec<char>)
    ensures
        r@ == s@,
{
    s.chars().collect()
}

/// Relies on `String`'s `FromIterator<char>`: a string of exactly the given
/// characters, in order.
#[verifier::external_body]
fn string_from_chars(v: Vec<char>) -> (r: String)
    ensures
        r@ == v@,
{
    v.into_iter().collect()
}

/// The digit character of a value below ten.
fn digit_char(d: u8) -> (c: char)
    requires
        d < 10,
    ensures
        c == spec_digit(d),
{
    match d {
        0 => '0',
        1 => '1',
        2 => '2',
        3 => '3',
        4 => '4',
        5 => '5',
        6 => '6',
        7 => '7',
        8 => '8',
        _ => '9',
    }
}

/// Whether `c` is a decimal digit.
fn digit_check(c: char) -> (r: bool)
    ensures
        r == is_digit(c),
{
    c == '0' || c == '1' || c == '2' || c == '3' || c == '4' || c == '5' || c == '6' || c == '7'
        || c == '8' || c == '9'
}

/// The value of a digit character.
fn digit_val(c: char) -> (d: u8)
    requires
        is_digit(c),
    ensures
        d < 10,
        spec_digit(d) == c,
{
    if c == '0' {
        0
    } else if c == '1' {
        1
    } else if c == '2' {
        2
    } else if c == '3' {
        3
    } else if c == '4' {
        4
    } else if c == '5' {
        5
    } else if c == '6' {
        6
    } else if c == '7' {
        7
    } else if c == '8' {
        8
    } else {
        9
    }
}

/// Appending one element extends the byte-list encoding by a comma (unless the
/// list was empty) and the element's digits.
proof fn lemma_encode_bytes_push(b: Seq<u8>, x: u8)
    ensures
        spec_encode_bytes(b.push(x)) == if b.len() == 0 {
            spec_encode_byte(x)
        } else {
            spec_encode_bytes(b) + seq![','] + spec_encode_byte(x)
        },
    decreases b.len(),
{
    if b.len() == 0 {
        assert(b.push(x) =~= seq![x]);
    } else {
        assert(b.push(x).skip(1) =~= b.skip(1).push(x));
        lemma_encode_bytes_push(b.skip(1), x);
        if b.len() == 1 {
            assert(spec_encode_bytes(b.push(x)) =~= spec_encode_bytes(b) + seq![',']
                + spec_encode_byte(x));
        } else {
            assert(spec_encode_bytes(b.push(x)) =~= spec_encode_bytes(b) + seq![',']
                + spec_encode_byte(x));
        }
    }
}

/// Appending one character extends the escaped text by that character's
/// escape sequence.
proof fn lemma_escape_push(s: Seq<char>, c: char)
    ensures
        spec_escape(s.push(c)) == spec_escape(s) + spec_escape_char(c),
    decreases s.len(),
{
    if s.len() == 0 {
        reveal_with_fuel(spec_escape, 2);
        assert(s.push(c) =~= seq![c]);
        assert(seq![c].skip(1) =~= Seq::<char>::empty());
        assert(spec_escape(s.push(c)) =~= spec_escape(s) + spec_escape_char(c));
    } else {
        assert(s.push(c)[0] == s[0]);
        assert(s.push(c).skip(1) =~= s.skip(1).push(c));
        lemma_escape_push(s.skip(1), c);
        assert(spec_escape(s.push(c)) == spec_escape_char(s[0]) + (spec_escape(s.skip(1))
            + spec_escape_char(c)));
        assert(spec_escape_char(s[0]) + (spec_escape(s.skip(1)) + spec_escape_char(c)) =~= (
        spec_escape_char(s[0]) + spec_escape(s.skip(1))) + spec_escape_char(c));
    }
}

/// Writes the decimal digits of one byte.
fn push_byte_chars(out: &mut Vec<char>, n: u8)
    ensures
        final(out)@ == old(out)@ + spec_encode_byte(n),
{
    if n >= 100 {
        out.push(digit_char(n / 100));
        out.push(digit_char((n / 10) % 10));
        out.push(digit_char(n % 10));
        proof {
            assert(out@ =~= old(out)@ + spec_encode_byte(n));
        }
    } else if n >= 10 {
        out.push(digit_char(n / 10));
        out.push(digit_char(n % 10));
        proof {
            assert(out@ =~= old(out)@ + spec_encode_byte(n));
        }
    } else {
        out.push(digit_char(n));
        proof {
            assert(out@ =~= old(out)@ + spec_encode_byte(n));
        }
    }
}

/// Digit characters are digits.
proof fn lemma_digit_is_digit(d: u8)
    requires
        d < 10,
    ensures
        is_digit(spec_digit(d)),
{
}

/// Distinct values below ten have distinct digit characters.
proof fn lemma_digit_inj(a: u8, b: u8)
    requires
        a < 10,
        b < 10,
        spec_digit(a) == spec_digit(b),
    ensures
        a == b,
{
}

/// Shape of a byte's decimal digits: one to three digit characters, as many
/// as the value's magnitude asks, with no leading zero.
proof fn lemma_enc_byte_props(x: u8)
    ensures
        1 <= spec_encode_byte(x).len() <= 3,
        forall|k: int|
            0 <= k < spec_encode_byte(x).len() ==> is_digit(#[trigger] spec_encode_byte(x)[k]),
        spec_encode_byte(x).len() == 1 <==> x < 10,
        spec_encode_byte(x).len() == 2 <==> (10 <= x && x < 100),
        spec_encode_byte(x).len() == 3 <==> x >= 100,
        spec_encode_byte(x).len() >= 2 ==> spec_encode_byte(x)[0] != '0',
{
    lemma_digit_is_digit(x % 10);
    lemma_digit_is_digit((x / 10) % 10);
    lemma_digit_is_digit(x / 100);
    if x < 100 {
        lemma_digit_is_digit(x / 10);
    }
}

/// A byte has one decimal spelling: equal digit runs mean equal values.
proof fn lemma_enc_byte_inj(x: u8, y: u8)
    requires
        spec_encode_byte(x) == spec_encode_byte(y),
    ensures
        x == y,
{
    lemma_enc_byte_props(x);
    lemma_enc_byte_props(y);
    if x < 10 {
        assert(spec_encode_byte(x)[0] == spec_digit(x));
        assert(spec_encode_byte(y)[0] == spec_digit(y));
        lemma_digit_inj(x, y);
    } else if x < 100 {
        assert(spec_encode_byte(x)[0] == spec_digit(x / 10));
        assert(spec_encode_byte(x)[1] == spec_digit(x % 10));
        assert(spec_encode_byte(y)[0] == spec_digit(y / 10));
        assert(spec_encode_byte(y)[1] == spec_digit(y % 10));
        lemma_digit_inj(x / 10, y / 10);
        lemma_digit_inj(x % 10, y % 10);
    } else {
        assert(spec_encode_byte(x)[0] == spec_digit(x / 100));
        assert(spec_encode_byte(x)[1] == spec_digit((x / 10) % 10));
        assert(spec_encode_byte(x)[2] == spec_digit(x % 10));
        assert(spec_encode_byte(y)[0] == spec_digit(y / 100));
        assert(spec_encode_byte(y)[1] == spec_digit((y / 10) % 10));
        assert(spec_encode_byte(y)[2] == spec_digit(y % 10));
        lemma_digit_inj(x / 100, y / 100);
        lemma_digit_inj((x / 10) % 10, (y / 10) % 10);
        lemma_digit_inj(x % 10, y % 10);
        assert((x as int) / 100 == ((x as int) / 10) / 10) by (nonlinear_arith);
        assert((y as int) / 100 == ((y as int) / 10) / 10) by (nonlinear_arith);
    }
}

/// Splits a tail equality at a concatenation point.
proof fn lemma_skip_parts(v: Seq<char>, i: int, a: Seq<char>, b: Seq<char>)
    requires
        0 <= i <= v.len(),
        v.skip(i) == a + b,
    ensures
        v.len() == i + a.len() + b.len(),
        v.subrange(i, i + a.len()) == a,
        v.skip(i + a.len()) == b,
{
    assert(v.skip(i).len() == v.len() - i);
    assert((a + b).len() == a.len() + b.len());
    assert(forall|t: int| 0 <= t < v.len() - i ==> #[trigger] v.skip(i)[t] == v[i + t]);
    assert(forall|t: int| 0 <= t < a.len() ==> #[trigger] (a + b)[t] == a[t]);
    assert(forall|t: int| a.len() <= t < a.len() + b.len() ==> #[trigger] (a + b)[t] == b[t
        - a.len()]);
    assert(v.subrange(i, i + a.len()) =~= a);
    assert forall|t: int| 0 <= t < b.len() implies v.skip(i + a.len())[t] == b[t] by {
        assert(v.skip(i + a.len())[t] == v[i + a.len() + t]);
        assert(v.skip(i)[a.len() + t] == v[i + a.len() + t]);
        assert((a + b)[a.len() + t] == b[t]);
    }
    assert(v.skip(i + a.len()) =~= b);
}

/// Joins a tail back together at a cut point.
proof fn lemma_skip_join(v: Seq<char>, i: int, j: int)
    requires
        0 <= i <= j <= v.len(),
    ensures
        v.skip(i) == v.subrange(i, j) + v.skip(j),
{
    assert(v.skip(i) =~= v.subrange(i, j) + v.skip(j));
}

/// A nonempty byte list encodes to text opening with its first byte's first
/// digit.
proof fn lemma_enc_bytes_head(b: Seq<u8>)
    requires
        b.len() >= 1,
    ensures
        spec_encode_bytes(b).len() >= 1,
        spec_encode_bytes(b)[0] == spec_encode_byte(b[0])[0],
        is_digit(spec_encode_bytes(b)[0]),
{
    lemma_enc_byte_props(b[0]);
}

/// Within one text, a canonical number followed by a non-digit sits at one
/// place only: both readings agree on the value and on where it ends.
proof fn lemma_byte_parse_unique(v: Seq<char>, i: int, x: u8, j: int, y: u8, k: int)
    requires
        0 <= i,
        i < j <= v.len(),
        i < k <= v.len(),
        v.subrange(i, j) == spec_encode_byte(x),
        j == v.len() || !is_digit(v[j]),
        v.subrange(i, k) == spec_encode_byte(y),
        k == v.len() || !is_digit(v[k]),
    ensures
        x == y,
        j == k,
{
    lemma_enc_byte_props(x);
    lemma_enc_byte_props(y);
    if j < k {
        assert(v[j] == v.subrange(i, k)[j - i]);
        assert(is_digit(spec_encode_byte(y)[j - i]));
        assert(false);
    } else if k < j {
        assert(v[k] == v.subrange(i, j)[k - i]);
        assert(is_digit(spec_encode_byte(x)[k - i]));
        assert(false);
    }
    lemma_enc_byte_inj(x, y);
}

/// Reads one canonical decimal byte at `i`; the text continues with a
/// non-digit (or ends) right after it, or there is no such reading at all.
fn parse_byte(v: &Vec<char>, i: usize) -> (r: Option<(u8, usize)>)
    requires
        i <= v@.len(),
    ensures
        match r {
            Some(p) => i < p.1 <= v@.len() && v@.subrange(i as int, p.1 as int)
                == spec_encode_byte(p.0) && (p.1 == v@.len() || !is_digit(v@[p.1 as int])),
            None => forall|x: u8, j: int|
                #![trigger v@.subrange(i as int, j), spec_encode_byte(x)]
                !(i < j <= v@.len() && v@.subrange(i as int, j) == spec_encode_byte(x) && (j
                    == v@.len() || !is_digit(v@[j]))),
        },
{
    let len = v.len();
    if i == len || !digit_check(v[i]) {
        proof {
            assert forall|x: u8, j: int|
                #![trigger v@.subrange(i as int, j), spec_encode_byte(x)]
                !(i < j <= v@.len() && v@.subrange(i as int, j) == spec_encode_byte(x) && (j
                    == v@.len() || !is_digit(v@[j]))) by {
                if i < j <= v@.len() && v@.subrange(i as int, j) == spec_encode_byte(x) && (j
                    == v@.len() || !is_digit(v@[j])) {
                    lemma_enc_byte_props(x);
                    assert(v@[i as int] == v@.subrange(i as int, j)[0]);
                    assert(is_digit(spec_encode_byte(x)[0]));
                    assert(false);
                }
            }
        }
        return None;
    }
    let d0 = digit_val(v[i]);
    if len - i == 1 || !digit_check(v[i + 1]) {
        proof {
            assert(v@.subrange(i as int, i as int + 1) =~= seq![v@[i as int]]);
            assert(v@.subrange(i as int, i as int + 1) =~= spec_encode_byte(d0));
        }
        return Some((d0, i + 1));
    }
    let d1 = digit_val(v[i + 1]);
    if d0 == 0 {
        proof {
            assert forall|x: u8, j: int|
                #![trigger v@.subrange(i as int, j), spec_encode_byte(x)]
                !(i < j <= v@.len() && v@.subrange(i as int, j) == spec_encode_byte(x) && (j
                    == v@.len() || !is_digit(v@[j]))) by {
                if i < j <= v@.len() && v@.subrange(i as int, j) == spec_encode_byte(x) && (j
                    == v@.len() || !is_digit(v@[j])) {
                    lemma_enc_byte_props(x);
                    if j == i + 1 {
                        assert(is_digit(v@[i as int + 1]));
                        assert(false);
                    } else {
                        assert(v@[i as int] == v@.subrange(i as int, j)[0]);
                        assert(spec_encode_byte(x)[0] != '0');
                        assert(v@[i as int] == spec_digit(0));
                        assert(false);
                    }
                }
            }
        }
        return None;
    }
    if len - i == 2 || !digit_check(v[i + 2]) {
        let x: u8 = 10 * d0 + d1;
        proof {
            assert(v@.subrange(i as int, i as int + 2) =~= seq![v@[i as int], v@[i as int + 1]]);
            assert(x / 10 == d0 && x % 10 == d1);
            assert(v@.subrange(i as int, i as int + 2) =~= spec_encode_byte(x));
        }
        return Some((x, i + 2));
    }
    let d2 = digit_val(v[i + 2]);
    if len - i >= 4 && digit_check(v[i + 3]) {
        proof {
            assert forall|x: u8, j: int|
                #![trigger v@.subrange(i as int, j), spec_encode_byte(x)]
                !(i < j <= v@.len() && v@.subrange(i as int, j) == spec_encode_byte(x) && (j
                    == v@.len() || !is_digit(v@[j]))) by {
                if i < j <= v@.len() && v@.subrange(i as int, j) == spec_encode_byte(x) && (j
                    == v@.len() || !is_digit(v@[j])) {
                    lemma_enc_byte_props(x);
                    assert(j == i + 1 || j == i + 2 || j == i + 3);
                    assert(is_digit(v@[j]));
                    assert(false);
                }
            }
        }
        return None;
    }
    let val: u32 = 100 * (d0 as u32) + 10 * (d1 as u32) + (d2 as u32);
    if val > 255 {
        proof {
            assert forall|x: u8, j: int|
                #![trigger v@.subrange(i as int, j), spec_encode_byte(x)]
                !(i < j <= v@.len() && v@.subrange(i as int, j) == spec_encode_byte(x) && (j
                    == v@.len() || !is_digit(v@[j]))) by {
                if i < j <= v@.len() && v@.subrange(i as int, j) == spec_encode_byte(x) && (j
                    == v@.len() || !is_digit(v@[j])) {
                    lemma_enc_byte_props(x);
                    if j == i + 1 {
                        assert(is_digit(v@[i as int + 1]));
                        assert(false);
                    } else if j == i + 2 {
                        assert(is_digit(v@[i as int + 2]));
                        assert(false);
                    } else {
                        assert(j == i + 3);
                        assert(x >= 100);
                        assert(v@.subrange(i as int, j)[0] == v@[i as int]);
                        assert(v@.subrange(i as int, j)[1] == v@[i as int + 1]);
                        assert(v@.subrange(i as int, j)[2] == v@[i as int + 2]);
                        lemma_digit_inj(x / 100, d0);
                        lemma_digit_inj((x / 10) % 10, d1);
                        lemma_digit_inj(x % 10, d2);
                        assert((x as int) / 100 == ((x as int) / 10) / 10) by (nonlinear_arith);
                        assert(false);
                    }
                }
            }
        }
        return None;
    }
    let x: u8 = val as u8;
    proof {
        assert(v@.subrange(i as int, i as int + 3) =~= seq![v@[i as int], v@[i as int + 1], v@[
            i as int + 2]]);
        assert(x >= 100);
        assert(x / 100 == d0);
        assert((x / 10) % 10 == d1);
        assert(x % 10 == d2);
        assert(v@.subrange(i as int, i as int + 3) =~= spec_encode_byte(x));
    }
    Some((x, i + 3))
}

/// How a nonempty byte-list encoding constrains the text around a number
/// read at its head: the number is the first byte, and what follows is either
/// the closing `]}` (one byte left) or a comma and the remaining list.
proof fn lemma_items_shape(v: Seq<char>, i: int, b: Seq<u8>, x: u8, j: int)
    requires
        0 <= i <= v.len(),
        b.len() >= 1,
        v.skip(i) == spec_encode_bytes(b) + seq![']', '}'],
        i < j <= v.len(),
        v.subrange(i, j) == spec_encode_byte(x),
        j == v.len() || !is_digit(v[j]),
    ensures
        b[0] == x,
        b.len() == 1 ==> v.len() == j + 2 && v[j] == ']' && v[j + 1] == '}',
        b.len() > 1 ==> j + 1 <= v.len() && v[j] == ',' && v.skip(j + 1) == spec_encode_bytes(
            b.skip(1),
        ) + seq![']', '}'],
{
    let e0 = spec_encode_byte(b[0]);
    lemma_enc_byte_props(b[0]);
    if b.len() == 1 {
        assert(spec_encode_bytes(b) == e0);
        assert(spec_encode_bytes(b) + seq![']', '}'] =~= e0 + seq![']', '}']);
        lemma_skip_parts(v, i, e0, seq![']', '}']);
        let j0 = i + e0.len();
        assert(v[j0] == v.skip(j0)[0]);
        assert(v[j0] == ']');
        lemma_byte_parse_unique(v, i, x, j, b[0], j0);
        assert(v[j0 + 1] == v.skip(j0)[1]);
    } else {
        let rest = seq![','] + spec_encode_bytes(b.skip(1)) + seq![']', '}'];
        assert(spec_encode_bytes(b) == e0 + seq![','] + spec_encode_bytes(b.skip(1)));
        assert(spec_encode_bytes(b) + seq![']', '}'] =~= e0 + rest);
        lemma_skip_parts(v, i, e0, rest);
        let j0 = i + e0.len();
        assert(v[j0] == v.skip(j0)[0]);
        assert(v[j0] == ',');
        lemma_byte_parse_unique(v, i, x, j, b[0], j0);
        assert forall|t: int| 0 <= t < rest.len() - 1 implies #[trigger] v.skip(j0 + 1)[t] == rest[1
            + t] by {
            assert(v.skip(j0 + 1)[t] == v[j0 + 1 + t]);
            assert(v.skip(j0)[1 + t] == v[j0 + 1 + t]);
        }
        assert(v.skip(j0 + 1) =~= spec_encode_bytes(b.skip(1)) + seq![']', '}']);
    }
}

/// Reads one or more comma-separated bytes followed by `]}` running to the
/// end of the text, or proves no nonempty list is written there.
fn parse_items1(v: &Vec<char>, i: usize) -> (r: Option<Vec<u8>>)
    requires
        i <= v@.len(),
    ensures
        match r {
            Some(b) => b@.len() >= 1 && v@.skip(i as int) == spec_encode_bytes(b@) + seq![']', '}'],
            None => forall|b: Seq<u8>|
                b.len() >= 1 ==> v@.skip(i as int) != #[trigger] spec_encode_bytes(b) + seq![
                    ']',
                    '}',
                ],
        },
    decreases v@.len() - i,
{
    let len = v.len();
    match parse_byte(v, i) {
        None => {
            proof {
                assert forall|b: Seq<u8>|
                    b.len() >= 1 implies v@.skip(i as int) != #[trigger] spec_encode_bytes(b)
                    + seq![']', '}'] by {
                    if v@.skip(i as int) == spec_encode_bytes(b) + seq![']', '}'] {
                        let e0 = spec_encode_byte(b[0]);
                        lemma_enc_byte_props(b[0]);
                        if b.len() == 1 {
                            assert(spec_encode_bytes(b) + seq![']', '}'] =~= e0 + seq![']', '}']);
                            lemma_skip_parts(v@, i as int, e0, seq![']', '}']);
                            let j0 = i + e0.len();
                            assert(v@[j0] == v@.skip(j0)[0]);
                            assert(v@.subrange(i as int, j0) == spec_encode_byte(b[0])
                                && !is_digit(v@[j0]));
                            assert(false);
                        } else {
                            let rest = seq![','] + spec_encode_bytes(b.skip(1)) + seq![']', '}'];
                            assert(spec_encode_bytes(b) == e0 + seq![','] + spec_encode_bytes(
                                b.skip(1),
                            ));
                            assert(spec_encode_bytes(b) + seq![']', '}'] =~= e0 + rest);
                            lemma_skip_parts(v@, i as int, e0, rest);
                            let j0 = i + e0.len();
                            assert(v@[j0] == v@.skip(j0)[0]);
                            assert(v@.subrange(i as int, j0) == spec_encode_byte(b[0])
                                && !is_digit(v@[j0]));
                            assert(false);
                        }
                    }
                }
            }
            None
        },
        Some((x, j)) => {
            if j < len && v[j] == ',' {
                match parse_items1(v, j + 1) {
                    Some(mut rest_vec) => {
                        proof {
                            lemma_skip_join(v@, i as int, j as int);
                            assert(v@.skip(j as int)[0] == v@[j as int]);
                            assert forall|t: int|
                                0 <= t < v@.len() - j - 1 implies #[trigger] v@.skip(j as int + 1)[t]
                                == v@.skip(j as int)[1 + t] by {
                                assert(v@.skip(j as int)[1 + t] == v@[j as int + 1 + t]);
                                assert(v@.skip(j as int + 1)[t] == v@[j as int + 1 + t]);
                            }
                            assert(v@.skip(j as int) =~= seq![','] + v@.skip(j as int + 1));
                        }
                        let ghost old_rest = rest_vec@;
                        rest_vec.insert(0, x);
                        proof {
                            assert(rest_vec@ =~= seq![x] + old_rest);
                            assert(rest_vec@[0] == x);
                            assert(rest_vec@.skip(1) =~= old_rest);
                            assert(spec_encode_bytes(rest_vec@) == spec_encode_byte(x) + seq![',']
                                + spec_encode_bytes(old_rest));
                            assert(v@.skip(i as int) =~= spec_encode_bytes(rest_vec@) + seq![
                                ']',
                                '}',
                            ]);
                        }
                        Some(rest_vec)
                    },
                    None => {
                        proof {
                            assert forall|b: Seq<u8>|
                                b.len() >= 1 implies v@.skip(i as int)
                                != #[trigger] spec_encode_bytes(b) + seq![']', '}'] by {
                                if v@.skip(i as int) == spec_encode_bytes(b) + seq![']', '}'] {
                                    lemma_items_shape(v@, i as int, b, x, j as int);
                                    assert(b.len() > 1);
                                    assert(b.skip(1).len() >= 1);
                                    assert(v@.skip(j as int + 1) == spec_encode_bytes(b.skip(1))
                                        + seq![']', '}']);
                                    assert(false);
                                }
                            }
                        }
                        None
                    },
                }
            } else if j < len && v[j] == ']' {
                if len - j == 2 && v[j + 1] == '}' {
                    let mut out: Vec<u8> = Vec::new();
                    out.push(x);
                    proof {
                        lemma_skip_join(v@, i as int, j as int);
                        assert(v@.skip(j as int).len() == 2);
                        assert(v@.skip(j as int)[0] == v@[j as int]);
                        assert(v@.skip(j as int)[1] == v@[j as int + 1]);
                        assert(v@.skip(j as int) =~= seq![']', '}']);
                        assert(out@ =~= seq![x]);
                        assert(spec_encode_bytes(out@) == spec_encode_byte(x));
                        assert(v@.skip(i as int) =~= spec_encode_bytes(out@) + seq![']', '}']);
                    }
                    Some(out)
                } else {
                    proof {
                        assert forall|b: Seq<u8>|
                            b.len() >= 1 implies v@.skip(i as int) != #[trigger] spec_encode_bytes(
                            b,
                        ) + seq![']', '}'] by {
                            if v@.skip(i as int) == spec_encode_bytes(b) + seq![']', '}'] {
                                lemma_items_shape(v@, i as int, b, x, j as int);
                                if b.len() == 1 {
                                    assert(v@.len() == j + 2 && v@[j as int + 1] == '}');
                                    assert(false);
                                } else {
                                    assert(v@[j as int] == ',');
                                    assert(false);
                                }
                            }
                        }
                    }
                    None
                }
            } else {
                proof {
                    assert forall|b: Seq<u8>|
                        b.len() >= 1 implies v@.skip(i as int) != #[trigger] spec_encode_bytes(b)
                        + seq![']', '}'] by {
                        if v@.skip(i as int) == spec_encode_bytes(b) + seq![']', '}'] {
                            lemma_items_shape(v@, i as int, b, x, j as int);
                            if b.len() == 1 {
                                assert(v@[j as int] == ']');
                                assert(false);
                            } else {
                                assert(v@[j as int] == ',');
                                assert(false);
                            }
                        }
                    }
                }
                None
            }
        },
    }
}

/// Reads a possibly empty byte list followed by `]}` running to the end of
/// the text, or proves no list is written there.
fn parse_list_end(v: &Vec<char>, i: usize) -> (r: Option<Vec<u8>>)
    requires
        i <= v@.len(),
    ensures
        match r {
            Some(b) => v@.skip(i as int) == spec_encode_bytes(b@) + seq![']', '}'],
            None => forall|b: Seq<u8>|
                v@.skip(i as int) != #[trigger] spec_encode_bytes(b) + seq![']', '}'],
        },
{
    let len = v.len();
    if i < len && v[i] == ']' {
        if len - i == 2 && v[i + 1] == '}' {
            let out: Vec<u8> = Vec::new();
            proof {
                assert(v@.skip(i as int).len() == 2);
                assert(v@.skip(i as int)[0] == v@[i as int]);
                assert(v@.skip(i as int)[1] == v@[i as int + 1]);
                assert(spec_encode_bytes(out@) == Seq::<char>::empty());
                assert(v@.skip(i as int) =~= spec_encode_bytes(out@) + seq![']', '}']);
            }
            Some(out)
        } else {
            proof {
                assert forall|b: Seq<u8>|
                    v@.skip(i as int) != #[trigger] spec_encode_bytes(b) + seq![']', '}'] by {
                    if v@.skip(i as int) == spec_encode_bytes(b) + seq![']', '}'] {
                        if b.len() == 0 {
                            assert(v@.skip(i as int) =~= seq![']', '}']);
                            assert(v@.skip(i as int).len() == 2);
                            assert(v@[i as int + 1] == v@.skip(i as int)[1]);
                            assert(false);
                        } else {
                            lemma_enc_bytes_head(b);
                            assert(v@[i as int] == v@.skip(i as int)[0]);
                            assert(is_digit(v@[i as int]));
                            assert(false);
                        }
                    }
                }
            }
            None
        }
    } else {
        let r = parse_items1(v, i);
        proof {
            if r is None {
                assert forall|b: Seq<u8>|
                    v@.skip(i as int) != #[trigger] spec_encode_bytes(b) + seq![']', '}'] by {
                    if v@.skip(i as int) == spec_encode_bytes(b) + seq![']', '}'] {
                        if b.len() == 0 {
                            assert(v@.skip(i as int) =~= seq![']', '}']);
                            assert(v@.skip(i as int).len() == 2);
                            assert(v@[i as int] == v@.skip(i as int)[0]);
                            assert(i < v@.len() && v@[i as int] == ']');
                            assert(false);
                        } else {
                            assert(false);
                        }
                    }
                }
            }
        }
        r
    }
}

/// How an escaped path followed by `"}` constrains the text at its head: the
/// closing quote comes at once only for the empty path, a backslash opens the
/// escape of a quote or backslash, and any other character stands for itself.
proof fn lemma_escape_shape(v: Seq<char>, i: int, p: Seq<char>)
    requires
        0 <= i <= v.len(),
        v.skip(i) == spec_escape(p) + seq!['"', '}'],
    ensures
        i + 2 <= v.len(),
        p.len() == 0 ==> v.len() == i + 2 && v[i] == '"' && v[i + 1] == '}',
        p.len() >= 1 && (p[0] == '"' || p[0] == '\\') ==> i + 2 <= v.len() && v[i] == '\\' && v[i
            + 1] == p[0] && v.skip(i + 2) == spec_escape(p.skip(1)) + seq!['"', '}'],
        p.len() >= 1 && !(p[0] == '"' || p[0] == '\\') ==> v[i] == p[0] && v.skip(i + 1)
            == spec_escape(p.skip(1)) + seq!['"', '}'],
{
    if p.len() == 0 {
        assert(spec_escape(p) == Seq::<char>::empty());
        assert(v.skip(i) =~= seq!['"', '}']);
        assert(v.skip(i).len() == 2);
        assert(v[i] == v.skip(i)[0]);
        assert(v[i + 1] == v.skip(i)[1]);
    } else {
        let e0 = spec_escape_char(p[0]);
        let rest = spec_escape(p.skip(1)) + seq!['"', '}'];
        assert(spec_escape(p) == e0 + spec_escape(p.skip(1)));
        assert(spec_escape(p) + seq!['"', '}'] =~= e0 + rest);
        lemma_skip_parts(v, i, e0, rest);
        assert(v.subrange(i, i + e0.len())[0] == v[i]);
        if p[0] == '"' || p[0] == '\\' {
            assert(e0.len() == 2);
            assert(v.subrange(i, i + 2)[1] == v[i + 1]);
            assert(v[i] == e0[0]);
            assert(v[i + 1] == e0[1]);
        } else {
            assert(e0.len() == 1);
            assert(v[i] == e0[0]);
        }
    }
}

/// Reads an escaped path string followed by `"}` running to the end of the
/// text, or proves no path is written there.
fn parse_location_tail(v: &Vec<char>, i: usize) -> (r: Option<Vec<char>>)
    requires
        i <= v@.len(),
    ensures
        match r {
            Some(p) => v@.skip(i as int) == spec_escape(p@) + seq!['"', '}'],
            None => forall|p: Seq<char>|
                v@.skip(i as int) != #[trigger] spec_escape(p) + seq!['"', '}'],
        },
    decreases v@.len() - i,
{
    let len = v.len();
    if i == len {
        proof {
            assert forall|p: Seq<char>|
                v@.skip(i as int) != #[trigger] spec_escape(p) + seq!['"', '}'] by {
                if v@.skip(i as int) == spec_escape(p) + seq!['"', '}'] {
                    lemma_escape_shape(v@, i as int, p);
                    assert(false);
                }
            }
        }
        return None;
    }
    let c = v[i];
    if c == '"' {
        if len - i == 2 && v[i + 1] == '}' {
            let out: Vec<char> = Vec::new();
            proof {
                assert(v@.skip(i as int).len() == 2);
                assert(v@.skip(i as int)[0] == v@[i as int]);
                assert(v@.skip(i as int)[1] == v@[i as int + 1]);
                assert(spec_escape(out@) == Seq::<char>::empty());
                assert(v@.skip(i as int) =~= spec_escape(out@) + seq!['"', '}']);
            }
            Some(out)
        } else {
            proof {
                assert forall|p: Seq<char>|
                    v@.skip(i as int) != #[trigger] spec_escape(p) + seq!['"', '}'] by {
                    if v@.skip(i as int) == spec_escape(p) + seq!['"', '}'] {
                        lemma_escape_shape(v@, i as int, p);
                        if p.len() == 0 {
                            assert(v@.len() == i + 2 && v@[i as int + 1] == '}');
                            assert(false);
                        } else if p[0] == '"' || p[0] == '\\' {
                            assert(v@[i as int] == '\\');
                            assert(false);
                        } else {
                            assert(v@[i as int] == p[0]);
                            assert(false);
                        }
                    }
                }
            }
            None
        }
    } else if c == '\\' {
        if len - i >= 2 && (v[i + 1] == '"' || v[i + 1] == '\\') {
            let e = v[i + 1];
            match parse_location_tail(v, i + 2) {
                Some(mut rest_vec) => {
                    proof {
                        lemma_skip_join(v@, i as int, i as int + 2);
                        assert(v@.subrange(i as int, i as int + 2) =~= seq![v@[i as int], v@[
                            i as int + 1]]);
                    }
                    let ghost old_rest = rest_vec@;
                    rest_vec.insert(0, e);
                    proof {
                        assert(rest_vec@ =~= seq![e] + old_rest);
                        assert(rest_vec@[0] == e);
                        assert(rest_vec@.skip(1) =~= old_rest);
                        assert(spec_escape(rest_vec@) == spec_escape_char(e) + spec_escape(
                            old_rest,
                        ));
                        assert(spec_escape_char(e) =~= seq!['\\', e]);
                        assert(v@.skip(i as int) =~= spec_escape(rest_vec@) + seq!['"', '}']);
                    }
                    Some(rest_vec)
                },
                None => {
                    proof {
                        assert forall|p: Seq<char>|
                            v@.skip(i as int) != #[trigger] spec_escape(p) + seq!['"', '}'] by {
                            if v@.skip(i as int) == spec_escape(p) + seq!['"', '}'] {
                                lemma_escape_shape(v@, i as int, p);
                                if p.len() == 0 {
                                    assert(v@[i as int] == '"');
                                    assert(false);
                                } else if p[0] == '"' || p[0] == '\\' {
                                    assert(p[0] == v@[i as int + 1]);
                                    assert(v@.skip(i as int + 2) == spec_escape(p.skip(1)) + seq![
                                        '"',
                                        '}',
                                    ]);
                                    assert(false);
                                } else {
                                    assert(v@[i as int] == p[0]);
                                    assert(false);
                                }
                            }
                        }
                    }
                    None
                },
            }
        } else {
            proof {
                assert forall|p: Seq<char>|
                    v@.skip(i as int) != #[trigger] spec_escape(p) + seq!['"', '}'] by {
                    if v@.skip(i as int) == spec_escape(p) + seq!['"', '}'] {
                        lemma_escape_shape(v@, i as int, p);
                        if p.len() == 0 {
                            assert(v@[i as int] == '"');
                            assert(false);
                        } else if p[0] == '"' || p[0] == '\\' {
                            assert(v@[i as int + 1] == p[0]);
                            assert(i + 2 <= v@.len());
                            assert(false);
                        } else {
                            assert(v@[i as int] == p[0]);
                            assert(false);
                        }
                    }
                }
            }
            None
        }
    } else {
        match parse_location_tail(v, i + 1) {
            Some(mut rest_vec) => {
                proof {
                    lemma_skip_join(v@, i as int, i as int + 1);
                    assert(v@.subrange(i as int, i as int + 1) =~= seq![v@[i as int]]);
                }
                let ghost old_rest = rest_vec@;
                rest_vec.insert(0, c);
                proof {
                    assert(rest_vec@ =~= seq![c] + old_rest);
                    assert(rest_vec@[0] == c);
                    assert(rest_vec@.skip(1) =~= old_rest);
                    assert(spec_escape(rest_vec@) == spec_escape_char(c) + spec_escape(old_rest));
                    assert(spec_escape_char(c) =~= seq![c]);
                    assert(v@.skip(i as int) =~= spec_escape(rest_vec@) + seq!['"', '}']);
                }
                Some(rest_vec)
            },
            None => {
                proof {
                    assert forall|p: Seq<char>|
                        v@.skip(i as int) != #[trigger] spec_escape(p) + seq!['"', '}'] by {
                        if v@.skip(i as int) == spec_escape(p) + seq!['"', '}'] {
                            lemma_escape_shape(v@, i as int, p);
                            if p.len() == 0 {
                                assert(v@[i as int] == '"');
                                assert(false);
                            } else if p[0] == '"' || p[0] == '\\' {
                                assert(v@[i as int] == '\\');
                                assert(false);
                            } else {
                                assert(p[0] == c);
                                assert(v@.skip(i as int + 1) == spec_escape(p.skip(1)) + seq![
                                    '"',
                                    '}',
                                ]);
                                assert(false);
                            }
                        }
                    }
                }
                None
            },
        }
    }
}

/// Equal byte-list encodings come from equal byte sequences.
proof fn lemma_encode_bytes_inj(a: Seq<u8>, b: Seq<u8>)
    requires
        spec_encode_bytes(a) == spec_encode_bytes(b),
    ensures
        a == b,
    decreases a.len(),
{
    let v = spec_encode_bytes(a);
    if a.len() == 0 {
        if b.len() > 0 {
            lemma_enc_bytes_head(b);
            assert(false);
        }
        assert(a =~= b);
    } else if b.len() == 0 {
        lemma_enc_bytes_head(a);
        assert(false);
    } else {
        let ea = spec_encode_byte(a[0]);
        let eb = spec_encode_byte(b[0]);
        lemma_enc_byte_props(a[0]);
        lemma_enc_byte_props(b[0]);
        let ra: Seq<char> = if a.len() == 1 {
            Seq::empty()
        } else {
            seq![','] + spec_encode_bytes(a.skip(1))
        };
        let rb: Seq<char> = if b.len() == 1 {
            Seq::empty()
        } else {
            seq![','] + spec_encode_bytes(b.skip(1))
        };
        assert(v =~= ea + ra);
        assert(v =~= eb + rb);
        assert(v.skip(0) =~= v);
        lemma_skip_parts(v, 0, ea, ra);
        lemma_skip_parts(v, 0, eb, rb);
        let ja = ea.len() as int;
        let jb = eb.len() as int;
        if a.len() > 1 {
            assert(v[ja] == v.skip(ja)[0]);
            assert(v[ja] == ',');
        }
        if b.len() > 1 {
            assert(v[jb] == v.skip(jb)[0]);
            assert(v[jb] == ',');
        }
        lemma_byte_parse_unique(v, 0, a[0], ja, b[0], jb);
        assert(ra == v.skip(ja) && rb == v.skip(jb));
        assert(ra == rb);
        if a.len() == 1 {
            if b.len() > 1 {
                assert(rb.len() >= 1);
                assert(false);
            }
            assert(a =~= b);
        } else {
            if b.len() == 1 {
                assert(ra.len() >= 1);
                assert(false);
            }
            assert(ra.skip(1) =~= spec_encode_bytes(a.skip(1)));
            assert(rb.skip(1) =~= spec_encode_bytes(b.skip(1)));
            lemma_encode_bytes_inj(a.skip(1), b.skip(1));
            assert(a.skip(1).len() == a.len() - 1);
            assert forall|t: int| 0 <= t < a.len() implies a[t] == b[t] by {
                if t > 0 {
                    assert(a.skip(1)[t - 1] == a[t]);
                    assert(b.skip(1)[t - 1] == b[t]);
                }
            }
            assert(a =~= b);
        }
    }
}

/// Equal escaped texts come from equal path strings.
proof fn lemma_escape_inj(a: Seq<char>, b: Seq<char>)
    requires
        spec_escape(a) == spec_escape(b),
    ensures
        a == b,
    decreases a.len(),
{
    let v = spec_escape(a);
    if a.len() == 0 {
        if b.len() > 0 {
            assert(spec_escape(b) == spec_escape_char(b[0]) + spec_escape(b.skip(1)));
            assert(spec_escape(b).len() >= 1);
            assert(false);
        }
        assert(a =~= b);
    } else if b.len() == 0 {
        assert(spec_escape(a) == spec_escape_char(a[0]) + spec_escape(a.skip(1)));
        assert(spec_escape(a).len() >= 1);
        assert(false);
    } else {
        let ea = spec_escape_char(a[0]);
        let eb = spec_escape_char(b[0]);
        assert(spec_escape(a) == ea + spec_escape(a.skip(1)));
        assert(spec_escape(b) == eb + spec_escape(b.skip(1)));
        assert(v.skip(0) =~= v);
        lemma_skip_parts(v, 0, ea, spec_escape(a.skip(1)));
        lemma_skip_parts(v, 0, eb, spec_escape(b.skip(1)));
        assert(v[0] == ea[0] && v[0] == eb[0]);
        if a[0] == '"' || a[0] == '\\' {
            assert(v[0] == '\\');
            assert(b[0] == '"' || b[0] == '\\');
            assert(v[1] == ea[1] && v[1] == eb[1]);
            assert(a[0] == b[0]);
        } else {
            assert(v[0] == a[0]);
            if b[0] == '"' || b[0] == '\\' {
                assert(v[0] == '\\');
                assert(false);
            }
            assert(a[0] == b[0]);
        }
        assert(ea == eb);
        assert(spec_escape(a.skip(1)) == v.skip(ea.len() as int));
        assert(spec_escape(b.skip(1)) == v.skip(eb.len() as int));
        lemma_escape_inj(a.skip(1), b.skip(1));
        assert(a.skip(1).len() == a.len() - 1);
        assert forall|t: int| 0 <= t < a.len() implies a[t] == b[t] by {
            if t > 0 {
                assert(a.skip(1)[t - 1] == a[t]);
                assert(b.skip(1)[t - 1] == b[t]);
            }
        }
        assert(a =~= b);
    }
}

/// The codec's central law: the wire encoding is injective, so a text is the
/// encoding of at most one message and decoding is well defined.
pub proof fn lemma_encode_injective(m1: MessageModel, m2: MessageModel)
    requires
        spec_encode(m1) == spec_encode(m2),
    ensures
        m1 == m2,
{
    let v = spec_encode(m1);
    lemma_encode_prefix(m1);
    lemma_encode_prefix(m2);
    if m1 is Data {
        assert(v[2] == v.subrange(0, 9)[2]);
        assert(v[2] == 'D');
        assert(v[6] == v.subrange(0, 9)[6]);
        assert(v[6] == '"');
    }
    if m2 is Data {
        assert(v[2] == v.subrange(0, 9)[2]);
        assert(v[2] == 'D');
        assert(v[6] == v.subrange(0, 9)[6]);
        assert(v[6] == '"');
    }
    if m1 is DataLocation {
        assert(v[2] == v.subrange(0, 17)[2]);
        assert(v[2] == 'D');
        assert(v[6] == v.subrange(0, 17)[6]);
        assert(v[6] == 'L');
    }
    if m2 is DataLocation {
        assert(v[2] == v.subrange(0, 17)[2]);
        assert(v[2] == 'D');
        assert(v[6] == v.subrange(0, 17)[6]);
        assert(v[6] == 'L');
    }
    match (m1, m2) {
        (MessageModel::WelcomeClient, MessageModel::WelcomeClient) => {},
        (MessageModel::Data(a), MessageModel::Data(b)) => {
            assert(v =~= data_prefix() + (spec_encode_bytes(a) + seq![']', '}']));
            assert(v =~= data_prefix() + (spec_encode_bytes(b) + seq![']', '}']));
            assert(v.skip(0) =~= v);
            lemma_skip_parts(v, 0, data_prefix(), spec_encode_bytes(a) + seq![']', '}']);
            lemma_skip_parts(v, 0, data_prefix(), spec_encode_bytes(b) + seq![']', '}']);
            let ta = spec_encode_bytes(a);
            let tb = spec_encode_bytes(b);
            assert(ta + seq![']', '}'] == tb + seq![']', '}']);
            assert(ta.len() == tb.len());
            assert forall|t: int| 0 <= t < ta.len() implies ta[t] == tb[t] by {
                assert((ta + seq![']', '}'])[t] == ta[t]);
                assert((tb + seq![']', '}'])[t] == tb[t]);
            }
            assert(ta =~= tb);
            lemma_encode_bytes_inj(a, b);
        },
        (MessageModel::DataLocation(a), MessageModel::DataLocation(b)) => {
            assert(v =~= location_prefix() + (spec_escape(a) + seq!['"', '}']));
            assert(v =~= location_prefix() + (spec_escape(b) + seq!['"', '}']));
            assert(v.skip(0) =~= v);
            lemma_skip_parts(v, 0, location_prefix(), spec_escape(a) + seq!['"', '}']);
            lemma_skip_parts(v, 0, location_prefix(), spec_escape(b) + seq!['"', '}']);
            let ta = spec_escape(a);
            let tb = spec_escape(b);
            assert(ta + seq!['"', '}'] == tb + seq!['"', '}']);
            assert(ta.len() == tb.len());
            assert forall|t: int| 0 <= t < ta.len() implies ta[t] == tb[t] by {
                assert((ta + seq!['"', '}'])[t] == ta[t]);
                assert((tb + seq!['"', '}'])[t] == tb[t]);
            }
            assert(ta =~= tb);
            lemma_escape_inj(a, b);
        },
        _ => {
            assert(welcome_text()[2] == 'W');
            assert(false);
        },
    }
}

/// Round trip at the specification level: every message's encoding is
/// decodable, and decodes back to that message.
pub proof fn lemma_spec_round_trip(m: MessageModel)
    ensures
        spec_decodable(spec_encode(m)),
        spec_decoded(spec_encode(m)) == m,
{
    assert(spec_decodable(spec_encode(m))) by {
        assert(spec_encode(m) == spec_encode(m));
    }
    lemma_encode_injective(spec_decoded(spec_encode(m)), m);
}

/// Whether two character vectors hold the same text.
fn vec_eq_chars(a: &Vec<char>, b: &Vec<char>) -> (r: bool)
    ensures
        r == (a@ == b@),
{
    if a.len() != b.len() {
        proof {
            assert(a@ != b@);
        }
        return false;
    }
    let mut k: usize = 0;
    while k < a.len()
        invariant
            k <= a.len(),
            a@.len() == b@.len(),
            forall|t: int| 0 <= t < k ==> a@[t] == b@[t],
        decreases a.len() - k,
    {
        if a[k] != b[k] {
            proof {
                assert(a@[k as int] != b@[k as int]);
            }
            return false;
        }
        k += 1;
    }
    proof {
        assert(a@ =~= b@);
    }
    true
}

/// Whether `p` opens `v`.
fn has_prefix(v: &Vec<char>, p: &Vec<char>) -> (r: bool)
    ensures
        r == (p@.len() <= v@.len() && v@.subrange(0, p@.len() as int) == p@),
{
    if p.len() > v.len() {
        return false;
    }
    let mut k: usize = 0;
    while k < p.len()
        invariant
            k <= p.len() <= v.len(),
            p@.len() == p.len(),
            forall|t: int| 0 <= t < k ==> v@[t] == p@[t],
        decreases p.len() - k,
    {
        if v[k] != p[k] {
            proof {
                assert(v@.subrange(0, p@.len() as int)[k as int] == v@[k as int]);
            }
            return false;
        }
        k += 1;
    }
    proof {
        assert(v@.subrange(0, p@.len() as int) =~= p@);
    }
    true
}

/// The full `WelcomeClient` text as characters.
fn welcome_vec() -> (r: Vec<char>)
    ensures
        r@ == welcome_text(),
{
    let s = "{\"WelcomeClient\":null}";
    proof {
        reveal_strlit("{\"WelcomeClient\":null}");
        assert(s@ =~= welcome_text());
    }
    chars_of(s)
}

/// The `Data` opening text as characters.
fn data_prefix_vec() -> (r: Vec<char>)
    ensures
        r@ == data_prefix(),
{
    let s = "{\"Data\":[";
    proof {
        reveal_strlit("{\"Data\":[");
        assert(s@ =~= data_prefix());
    }
    chars_of(s)
}

/// The `DataLocation` opening text as characters.
fn location_prefix_vec() -> (r: Vec<char>)
    ensures
        r@ == location_prefix(),
{
    let s = "{\"DataLocation\":\"";
    proof {
        reveal_strlit("{\"DataLocation\":\"");
        assert(s@ =~= location_prefix());
    }
    chars_of(s)
}

/// Every encoding of a `Data` message opens with the `Data` prefix, and every
/// encoding of a `DataLocation` with the `DataLocation` prefix.
proof fn lemma_encode_prefix(m: MessageModel)
    ensures
        m is Data ==> spec_encode(m).len() >= data_prefix().len() && spec_encode(m).subrange(
            0,
            data_prefix().len() as int,
        ) == data_prefix(),
        m is DataLocation ==> spec_encode(m).len() >= location_prefix().len() && spec_encode(
            m,
        ).subrange(0, location_prefix().len() as int) == location_prefix(),
{
    match m {
        MessageModel::WelcomeClient => {},
        MessageModel::Data(b) => {
            assert(spec_encode(m) =~= data_prefix() + (spec_encode_bytes(b) + seq![']', '}']));
            assert(spec_encode(m).subrange(0, data_prefix().len() as int) =~= data_prefix());
        },
        MessageModel::DataLocation(p) => {
            assert(spec_encode(m) =~= location_prefix() + (spec_escape(p) + seq!['"', '}']));
            assert(spec_encode(m).subrange(0, location_prefix().len() as int)
                =~= location_prefix());
        },
    }
}

/// Parses a wire text back into a message: `Ok` exactly on the encodings.
pub fn decode(s: &str) -> (r: Result<Message, MalformedMessage>)
    ensures
        match r {
            Ok(m) => s@ == spec_encode(m@),
            Err(_) => !spec_decodable(s@),
        },
{
    let v = chars_of(s);
    let w = welcome_vec();
    if vec_eq_chars(&v, &w) {
        return Ok(Message::WelcomeClient);
    }
    let dp = data_prefix_vec();
    let dp_hit = has_prefix(&v, &dp);
    if dp_hit {
        match parse_list_end(&v, 9) {
            Some(b) => {
                proof {
                    lemma_skip_join(v@, 0, 9);
                    assert(v@.skip(0) =~= v@);
                    assert(v@ =~= data_prefix() + (spec_encode_bytes(b@) + seq![']', '}']));
                }
                Ok(Message::Data(b))
            },
            None => {
                proof {
                    assert forall|m: MessageModel| s@ != spec_encode(m) by {
                        if s@ == spec_encode(m) {
                            lemma_encode_prefix(m);
                            match m {
                                MessageModel::WelcomeClient => {
                                    assert(v@ == welcome_text());
                                    assert(false);
                                },
                                MessageModel::Data(b) => {
                                    assert(spec_encode(m) =~= data_prefix() + (spec_encode_bytes(b)
                                        + seq![']', '}']));
                                    assert(v@.skip(0) =~= v@);
                                    lemma_skip_parts(
                                        v@,
                                        0,
                                        data_prefix(),
                                        spec_encode_bytes(b) + seq![']', '}'],
                                    );
                                    assert(v@.skip(9) == spec_encode_bytes(b) + seq![']', '}']);
                                    assert(false);
                                },
                                MessageModel::DataLocation(p) => {
                                    assert(v@.subrange(0, 9)[6] == v@[6]);
                                    assert(v@[6] == data_prefix()[6]);
                                    assert(v@.subrange(0, 17)[6] == v@[6]);
                                    assert(v@.subrange(0, 17) == location_prefix());
                                    assert(false);
                                },
                            }
                        }
                    }
                }
                Err(MalformedMessage)
            },
        }
    } else {
        let lp = location_prefix_vec();
        let lp_hit = has_prefix(&v, &lp);
        if lp_hit {
            match parse_location_tail(&v, 17) {
                Some(p) => {
                    proof {
                        lemma_skip_join(v@, 0, 17);
                        assert(v@.skip(0) =~= v@);
                        assert(v@ =~= location_prefix() + (spec_escape(p@) + seq!['"', '}']));
                    }
                    Ok(Message::DataLocation(string_from_chars(p)))
                },
                None => {
                    proof {
                        assert forall|m: MessageModel| s@ != spec_encode(m) by {
                            if s@ == spec_encode(m) {
                                lemma_encode_prefix(m);
                                match m {
                                    MessageModel::WelcomeClient => {
                                        assert(v@ == welcome_text());
                                        assert(false);
                                    },
                                    MessageModel::Data(b) => {
                                        assert(v@.subrange(0, 9) == data_prefix());
                                        assert(false);
                                    },
                                    MessageModel::DataLocation(p) => {
                                        assert(spec_encode(m) =~= location_prefix() + (spec_escape(
                                            p,
                                        ) + seq!['"', '}']));
                                        assert(v@.skip(0) =~= v@);
                                        lemma_skip_parts(
                                            v@,
                                            0,
                                            location_prefix(),
                                            spec_escape(p) + seq!['"', '}'],
                                        );
                                        assert(v@.skip(17) == spec_escape(p) + seq!['"', '}']);
                                        assert(false);
                                    },
                                }
                            }
                        }
                    }
                    Err(MalformedMessage)
                },
            }
        } else {
            proof {
                assert forall|m: MessageModel| s@ != spec_encode(m) by {
                    if s@ == spec_encode(m) {
                        lemma_encode_prefix(m);
                        match m {
                            MessageModel::WelcomeClient => {
                                assert(v@ == welcome_text());
                                assert(false);
                            },
                            MessageModel::Data(b) => {
                                assert(v@.subrange(0, 9) == data_prefix());
                                assert(false);
                            },
                            MessageModel::DataLocation(p) => {
                                assert(v@.subrange(0, 17) == location_prefix());
                                assert(false);
                            },
                        }
                    }
                }
            }
            Err(MalformedMessage)
        }
    }
}

/// Serializes a message to its wire text.
pub fn encode(m: &Message) -> (r: String)
    ensures
        r@ == spec_encode(m@),
{
    match m {
        Message::WelcomeClient => {
            let s = "{\"WelcomeClient\":null}";
            proof {
                reveal_strlit("{\"WelcomeClient\":null}");
                assert(s@ =~= welcome_text());
            }
            s.to_owned()
        },
        Message::Data(b) => {
            let s = "{\"Data\":[";
            proof {
                reveal_strlit("{\"Data\":[");
                assert(s@ =~= data_prefix());
            }
            let mut out = chars_of(s);
            let mut i: usize = 0;
            while i < b.len()
                invariant
                    i <= b.len(),
                    out@ == data_prefix() + spec_encode_bytes(b@.take(i as int)),
                decreases b.len() - i,
            {
                if i > 0 {
                    out.push(',');
                }
                push_byte_chars(&mut out, b[i]);
                proof {
                    assert(b@.take(i as int).push(b@[i as int]) =~= b@.take(i as int + 1));
                    lemma_encode_bytes_push(b@.take(i as int), b@[i as int]);
                    assert(out@ =~= data_prefix() + spec_encode_bytes(b@.take(i as int + 1)));
                }
                i += 1;
            }
            out.push(']');
            out.push('}');
            proof {
                assert(b@.take(b@.len() as int) =~= b@);
                assert(out@ =~= spec_encode(m@));
            }
            string_from_chars(out)
        },
        Message::DataLocation(p) => {
            let s = "{\"DataLocation\":\"";
            proof {
                reveal_strlit("{\"DataLocation\":\"");
                assert(s@ =~= location_prefix());
            }
            let mut out = chars_of(s);
            let cs = chars_of(p.as_str());
            let mut i: usize = 0;
            while i < cs.len()
                invariant
                    i <= cs.len(),
                    cs@ == p@,
                    out@ == location_prefix() + spec_escape(cs@.take(i as int)),
                decreases cs.len() - i,
            {
                let c = cs[i];
                if c == '"' {
                    out.push('\\');
                    out.push('"');
                } else if c == '\\' {
                    out.push('\\');
                    out.push('\\');
                } else {
                    out.push(c);
                }
                proof {
                    assert(cs@.take(i as int).push(cs@[i as int]) =~= cs@.take(i as int + 1));
                    lemma_escape_push(cs@.take(i as int), cs@[i as int]);
                    assert(out@ =~= location_prefix() + spec_escape(cs@.take(i as int + 1)));
                }
                i += 1;
            }
            out.push('"');
            out.push('}');
            proof {
                assert(cs@.take(cs@.len() as int) =~= cs@);
                assert(out@ =~= spec_encode(m@));
            }
            string_from_chars(out)
        },
    }
}

} // verus!
