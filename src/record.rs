//! The text form of a memory module: a JSON object with exactly the two fields
//! `compressed_data` (an array of byte values) and `metadata` (a string).
//!
//! Writing it is done here; reading it finds the object's structure here and
//! decodes the keys and the two field values with serde_json. Whitespace
//! between tokens is allowed and the two fields may come in either order;
//! unknown, repeated or missing fields are rejected.

use crate::module::{MemoryModule, ModuleView};
use crate::compression::{copy_range, utf8_to_string};
use crate::StreamlinerError;
use vstd::prelude::*;
use vstd::utf8::*;

verus! {

pub const QUOTE: u8 = 0x22;
pub const BACKSLASH: u8 = 0x5c;
pub const OPEN_BRACE: u8 = 0x7b;
pub const CLOSE_BRACE: u8 = 0x7d;
pub const OPEN_BRACKET: u8 = 0x5b;
pub const CLOSE_BRACKET: u8 = 0x5d;
pub const COMMA: u8 = 0x2c;
pub const COLON: u8 = 0x3a;

/// The lowercase hexadecimal digit of `d` (below 16).
pub open spec fn hex_digit(d: u8) -> u8 {
    if d < 10 {
        (0x30 + d) as u8
    } else {
        (0x57 + d) as u8
    }
}

/// How one byte of a UTF-8 string is written inside a JSON string.
pub open spec fn escape_byte(c: u8) -> Seq<u8> {
    if c == QUOTE {
        seq![BACKSLASH, QUOTE]
    } else if c == BACKSLASH {
        seq![BACKSLASH, BACKSLASH]
    } else if c == 0x08 {
        seq![BACKSLASH, 0x62u8]
    } else if c == 0x0c {
        seq![BACKSLASH, 0x66u8]
    } else if c == 0x0a {
        seq![BACKSLASH, 0x6eu8]
    } else if c == 0x0d {
        seq![BACKSLASH, 0x72u8]
    } else if c == 0x09 {
        seq![BACKSLASH, 0x74u8]
    } else if c < 0x20 {
        seq![BACKSLASH, 0x75u8, 0x30u8, 0x30u8, hex_digit(c / 16), hex_digit(c % 16)]
    } else {
        seq![c]
    }
}

/// The escaped body of a JSON string holding the UTF-8 bytes `b`.
pub open spec fn escaped(b: Seq<u8>) -> Seq<u8>
    decreases b.len(),
{
    if b.len() == 0 {
        Seq::empty()
    } else {
        escape_byte(b[0]) + escaped(b.drop_first())
    }
}

/// The JSON string token for the text `s`.
pub open spec fn string_token(s: Seq<char>) -> Seq<u8> {
    seq![QUOTE] + escaped(encode_utf8(s)) + seq![QUOTE]
}

/// The decimal digits of a byte value.
pub open spec fn decimal(x: u8) -> Seq<u8> {
    if x >= 100 {
        seq![(0x30 + x / 100) as u8, (0x30 + (x / 10) % 10) as u8, (0x30 + x % 10) as u8]
    } else if x >= 10 {
        seq![(0x30 + x / 10) as u8, (0x30 + x % 10) as u8]
    } else {
        seq![(0x30 + x) as u8]
    }
}

/// The comma-separated decimal values of `d`.
pub open spec fn decimal_list(d: Seq<u8>) -> Seq<u8>
    decreases d.len(),
{
    if d.len() == 0 {
        Seq::empty()
    } else if d.len() == 1 {
        decimal(d[0])
    } else {
        decimal_list(d.drop_last()) + seq![COMMA] + decimal(d.last())
    }
}

/// The JSON array token for the bytes `d`.
pub open spec fn array_token(d: Seq<u8>) -> Seq<u8> {
    seq![OPEN_BRACKET] + decimal_list(d) + seq![CLOSE_BRACKET]
}

/// The key token `"compressed_data"`.
pub open spec fn data_key() -> Seq<u8> {
    seq![QUOTE, 0x63u8, 0x6fu8, 0x6du8, 0x70u8, 0x72u8, 0x65u8, 0x73u8, 0x73u8, 0x65u8, 0x64u8, 0x5fu8, 0x64u8, 0x61u8, 0x74u8, 0x61u8, QUOTE]
}

/// The key token `"metadata"`.
pub open spec fn metadata_key() -> Seq<u8> {
    seq![QUOTE, 0x6du8, 0x65u8, 0x74u8, 0x61u8, 0x64u8, 0x61u8, 0x74u8, 0x61u8, QUOTE]
}

/// The name of the data field.
pub open spec fn data_name() -> Seq<char> {
    "compressed_data"@
}

/// The name of the metadata field.
pub open spec fn metadata_name() -> Seq<char> {
    "metadata"@
}

/// The UTF-8 bytes of a module's text form.
pub open spec fn record_bytes(v: ModuleView) -> Seq<u8> {
    seq![OPEN_BRACE] + data_key() + seq![COLON] + array_token(v.compressed_data) + seq![COMMA]
        + metadata_key() + seq![COLON] + string_token(v.metadata) + seq![CLOSE_BRACE]
}

/// JSON whitespace.
pub open spec fn is_ws(c: u8) -> bool {
    c == 0x20 || c == 0x09 || c == 0x0a || c == 0x0d
}

/// The first position at or after `i` that is not whitespace.
pub open spec fn skip_ws(b: Seq<u8>, i: int) -> int
    decreases b.len() - i,
{
    if 0 <= i < b.len() && is_ws(b[i]) {
        skip_ws(b, i + 1)
    } else {
        i
    }
}

/// The position of the quote that closes a string whose body starts at `i`
/// (a backslash escapes the byte after it), or the length where none does.
pub open spec fn string_close(b: Seq<u8>, i: int) -> int
    decreases b.len() - i,
{
    if i < 0 || i >= b.len() {
        b.len() as int
    } else if b[i] == QUOTE {
        i
    } else if b[i] == BACKSLASH {
        if i + 1 >= b.len() {
            b.len() as int
        } else {
            string_close(b, i + 2)
        }
    } else {
        string_close(b, i + 1)
    }
}

/// The position of the first closing bracket at or after `i`, or the length.
pub open spec fn array_close(b: Seq<u8>, i: int) -> int
    decreases b.len() - i,
{
    if i < 0 || i >= b.len() {
        b.len() as int
    } else if b[i] == CLOSE_BRACKET {
        i
    } else {
        array_close(b, i + 1)
    }
}

/// After a key ending at `j`: a colon, then the value token, an array for the
/// data field and a string for the metadata field. Gives the field, and the
/// start and end of the value token.
pub open spec fn field_value(b: Seq<u8>, j: int, is_data: bool) -> Option<(bool, int, int)> {
    let c = skip_ws(b, j);
    let v = skip_ws(b, c + 1);
    if !(0 <= c < b.len() && b[c] == COLON && v < b.len()) {
        None
    } else if is_data {
        let e = array_close(b, v);
        if b[v] == OPEN_BRACKET && e < b.len() {
            Some((true, v, e + 1))
        } else {
            None
        }
    } else {
        let e = string_close(b, v + 1);
        if b[v] == QUOTE && e < b.len() {
            Some((false, v, e + 1))
        } else {
            None
        }
    }
}

/// A field at `i`: a key, read as a JSON string, that names the data or the
/// metadata field; gives whether it is the data field, and its value token's
/// start and end.
pub open spec fn field_at(b: Seq<u8>, i: int) -> Option<(bool, int, int)> {
    let e = string_close(b, i + 1);
    if !(0 <= i < b.len() && b[i] == QUOTE && e < b.len()) {
        None
    } else {
        match json_string(b.subrange(i, e + 1)) {
            Some(k) => if k == data_name() {
                field_value(b, e + 1, true)
            } else if k == metadata_name() {
                field_value(b, e + 1, false)
            } else {
                None
            },
            None => None,
        }
    }
}

/// The positions of the two value tokens of a well-formed object: data
/// start and end, metadata start and end.
pub open spec fn record_layout(b: Seq<u8>) -> Option<(int, int, int, int)> {
    let p0 = skip_ws(b, 0);
    if !(p0 < b.len() && b[p0] == OPEN_BRACE) {
        None
    } else {
        match field_at(b, skip_ws(b, p0 + 1)) {
            None => None,
            Some((k1, s1, e1)) => {
                let p1 = skip_ws(b, e1);
                if !(p1 < b.len() && b[p1] == COMMA) {
                    None
                } else {
                    match field_at(b, skip_ws(b, p1 + 1)) {
                        None => None,
                        Some((k2, s2, e2)) => {
                            let p2 = skip_ws(b, e2);
                            if !(p2 < b.len() && b[p2] == CLOSE_BRACE && skip_ws(b, p2 + 1)
                                == b.len() && k1 != k2) {
                                None
                            } else if k1 {
                                Some((s1, e1, s2, e2))
                            } else {
                                Some((s2, e2, s1, e1))
                            }
                        },
                    }
                }
            },
        }
    }
}

/// The bytes that serde_json reads out of the JSON array token `tok`, or
/// `None` where it rejects it.
pub uninterp spec fn json_byte_array(tok: Seq<u8>) -> Option<Seq<u8>>;

/// The text that serde_json reads out of the JSON string token `tok`, or
/// `None` where it rejects it.
pub uninterp spec fn json_string(tok: Seq<u8>) -> Option<Seq<char>>;

/// The module that the text with UTF-8 bytes `b` describes, if any.
pub open spec fn parse_record(b: Seq<u8>) -> Option<ModuleView> {
    match record_layout(b) {
        None => None,
        Some((ds, de, ms, me)) => match (
            json_byte_array(b.subrange(ds, de)),
            json_string(b.subrange(ms, me)),
        ) {
            (Some(d), Some(m)) => Some(ModuleView { compressed_data: d, metadata: m }),
            _ => None,
        },
    }
}

/// Concatenation splits over escaping.
proof fn lemma_escaped_concat(a: Seq<u8>, b: Seq<u8>)
    ensures
        escaped(a + b) == escaped(a) + escaped(b),
    decreases a.len(),
{
    if a.len() == 0 {
        assert(a + b =~= b);
        assert(escaped(a) + escaped(b) =~= escaped(b));
    } else {
        assert((a + b).drop_first() =~= a.drop_first() + b);
        lemma_escaped_concat(a.drop_first(), b);
        assert(escaped(a + b) =~= escaped(a) + escaped(b));
    }
}

/// Bytes that are all ASCII are valid UTF-8.
proof fn lemma_ascii_valid(a: Seq<u8>)
    requires
        forall|k: int| 0 <= k < a.len() ==> a[k] < 0x80,
    ensures
        valid_utf8(a),
{
    let chars = Seq::new(a.len(), |i: int| a[i] as char);
    assert(is_ascii_chars(chars));
    is_ascii_chars_encode_utf8(chars);
    assert(encode_utf8(chars) =~= a);
    encode_utf8_valid_utf8(chars);
}

/// Escaping leaves printable bytes other than quote and backslash, and bytes
/// outside ASCII, as they are.
proof fn lemma_escaped_high(a: Seq<u8>)
    requires
        forall|k: int| 0 <= k < a.len() ==> a[k] >= 0x20 && a[k] != QUOTE && a[k] != BACKSLASH,
    ensures
        escaped(a) == a,
    decreases a.len(),
{
    if a.len() > 0 {
        lemma_escaped_high(a.drop_first());
        assert(escaped(a) =~= a);
    }
}

/// Escaping an ASCII byte gives ASCII bytes.
proof fn lemma_escape_byte_ascii(c: u8)
    requires
        c < 0x80,
    ensures
        forall|k: int| 0 <= k < escape_byte(c).len() ==> escape_byte(c)[k] < 0x80,
{
    assert(c / 16 < 16 && c % 16 < 16);
}

/// The escaped UTF-8 bytes of a text are valid UTF-8.
proof fn lemma_escaped_valid(s: Seq<char>)
    ensures
        valid_utf8(escaped(encode_utf8(s))),
    decreases s.len(),
{
    if s.len() == 0 {
        assert(escaped(encode_utf8(s)).len() == 0);
    } else {
        let u = s[0] as u32;
        let e0 = encode_scalar(u);
        let rest = encode_utf8(s.drop_first());
        assert(encode_utf8(s) == e0 + rest);
        lemma_escaped_concat(e0, rest);
        lemma_escaped_valid(s.drop_first());
        if has_width_1_encoding(u) {
            assert((u & 0x7f) as u8 <= 0x7f) by (bit_vector);
            lemma_escape_byte_ascii(e0[0]);
            assert(e0.drop_first() =~= Seq::<u8>::empty());
            assert(escaped(e0.drop_first()) =~= Seq::<u8>::empty());
            assert(escaped(e0) =~= escape_byte(e0[0]));
            lemma_ascii_valid(escaped(e0));
        } else {
            assert(forall|x: u8| #![auto] (0x80u8 | x) >= 0x80 && (0xC0u8 | x) >= 0x80 && (0xE0u8
                | x) >= 0x80 && (0xF0u8 | x) >= 0x80) by (bit_vector);
            lemma_escaped_high(e0);
            encode_utf8_valid_utf8(seq![s[0]]);
            let one = seq![s[0]];
            assert(one[0] == s[0]);
            assert(one.drop_first() =~= Seq::<char>::empty());
            assert(encode_utf8(one.drop_first()).len() == 0);
            assert(encode_utf8(one) =~= e0);
        }
        valid_utf8_concat(escaped(e0), escaped(rest));
    }
}

/// A module's text form is valid UTF-8.
pub proof fn lemma_record_valid_utf8(v: ModuleView)
    ensures
        valid_utf8(record_bytes(v)),
{
    let a = array_token(v.compressed_data);
    let x = escaped(encode_utf8(v.metadata));
    let head = seq![OPEN_BRACE] + data_key() + seq![COLON] + a + seq![COMMA] + metadata_key()
        + seq![COLON, QUOTE];
    let tail = seq![QUOTE, CLOSE_BRACE];
    assert(record_bytes(v) =~= head + x + tail);
    lemma_decimal_list_no_bracket(v.compressed_data);
    assert forall|k: int| 0 <= k < a.len() implies a[k] < 0x80 by {
        if 0 < k < a.len() - 1 {
            assert(a[k] == decimal_list(v.compressed_data)[k - 1]);
        }
    }
    assert forall|k: int| 0 <= k < head.len() implies head[k] < 0x80 by {
        if 19 <= k < 19 + a.len() {
            assert(head[k] == a[k - 19]);
        }
    }
    lemma_ascii_valid(head);
    lemma_ascii_valid(tail);
    lemma_escaped_valid(v.metadata);
    valid_utf8_concat(head, x);
    valid_utf8_concat(head + x, tail);
}

fn hex_digit_exec(d: u8) -> (r: u8)
    requires
        d < 16,
    ensures
        r == hex_digit(d),
{
    if d < 10 {
        0x30 + d
    } else {
        0x57 + d
    }
}

fn push_escaped_byte(out: &mut Vec<u8>, c: u8)
    ensures
        final(out)@ == old(out)@ + escape_byte(c),
{
    let ghost start = out@;
    if c == QUOTE || c == BACKSLASH {
        out.push(BACKSLASH);
        out.push(c);
    } else if c == 0x08 {
        out.push(BACKSLASH);
        out.push(0x62);
    } else if c == 0x0c {
        out.push(BACKSLASH);
        out.push(0x66);
    } else if c == 0x0a {
        out.push(BACKSLASH);
        out.push(0x6e);
    } else if c == 0x0d {
        out.push(BACKSLASH);
        out.push(0x72);
    } else if c == 0x09 {
        out.push(BACKSLASH);
        out.push(0x74);
    } else if c < 0x20 {
        out.push(BACKSLASH);
        out.push(0x75);
        out.push(0x30);
        out.push(0x30);
        out.push(hex_digit_exec(c / 16));
        out.push(hex_digit_exec(c % 16));
    } else {
        out.push(c);
    }
    assert(out@ =~= start + escape_byte(c));
}

fn push_string_token(out: &mut Vec<u8>, text: &str)
    ensures
        final(out)@ == old(out)@ + string_token(text@),
{
    let bytes = text.as_bytes();
    let ghost start = out@;
    out.push(QUOTE);
    let mut i: usize = 0;
    while i < bytes.len()
        invariant
            i <= bytes@.len(),
            bytes@ == encode_utf8(text@),
            out@ == start + seq![QUOTE] + escaped(bytes@.subrange(0, i as int)),
        decreases bytes@.len() - i,
    {
        let ghost before = out@;
        push_escaped_byte(out, bytes[i]);
        proof {
            let head = bytes@.subrange(0, i as int);
            let one = seq![bytes@[i as int]];
            assert(bytes@.subrange(0, i + 1) =~= head + one);
            lemma_escaped_concat(head, one);
            assert(one.drop_first() =~= Seq::<u8>::empty());
            assert(escaped(one.drop_first()) =~= Seq::<u8>::empty());
            assert(escaped(one) =~= escape_byte(bytes@[i as int]));
            assert(out@ =~= start + seq![QUOTE] + escaped(bytes@.subrange(0, i + 1)));
        }
        i = i + 1;
    }
    assert(bytes@.subrange(0, i as int) =~= bytes@);
    out.push(QUOTE);
    assert(out@ =~= start + string_token(text@));
}

fn push_decimal(out: &mut Vec<u8>, x: u8)
    ensures
        final(out)@ == old(out)@ + decimal(x),
{
    let ghost start = out@;
    if x >= 100 {
        out.push(0x30 + x / 100);
        out.push(0x30 + (x / 10) % 10);
        out.push(0x30 + x % 10);
    } else if x >= 10 {
        out.push(0x30 + x / 10);
        out.push(0x30 + x % 10);
    } else {
        out.push(0x30 + x);
    }
    assert(out@ =~= start + decimal(x));
}

fn push_array_token(out: &mut Vec<u8>, data: &[u8])
    ensures
        final(out)@ == old(out)@ + array_token(data@),
{
    let ghost start = out@;
    out.push(OPEN_BRACKET);
    let mut i: usize = 0;
    while i < data.len()
        invariant
            i <= data@.len(),
            out@ == start + seq![OPEN_BRACKET] + decimal_list(data@.subrange(0, i as int)),
        decreases data@.len() - i,
    {
        let ghost head = data@.subrange(0, i as int);
        let ghost next = data@.subrange(0, i + 1);
        assert(next.drop_last() =~= head);
        if i > 0 {
            out.push(COMMA);
        }
        push_decimal(out, data[i]);
        proof {
            if i == 0 {
                assert(decimal_list(head) =~= Seq::<u8>::empty());
            }
            assert(out@ =~= start + seq![OPEN_BRACKET] + decimal_list(next));
        }
        i = i + 1;
    }
    assert(data@.subrange(0, i as int) =~= data@);
    out.push(CLOSE_BRACKET);
    assert(out@ =~= start + array_token(data@));
}

fn push_data_key(out: &mut Vec<u8>)
    ensures
        final(out)@ == old(out)@ + data_key(),
{
    let ghost start = out@;
    out.push(QUOTE);
    out.push(0x63);
    out.push(0x6f);
    out.push(0x6d);
    out.push(0x70);
    out.push(0x72);
    out.push(0x65);
    out.push(0x73);
    out.push(0x73);
    out.push(0x65);
    out.push(0x64);
    out.push(0x5f);
    out.push(0x64);
    out.push(0x61);
    out.push(0x74);
    out.push(0x61);
    out.push(QUOTE);
    assert(out@ =~= start + data_key());
}

fn push_metadata_key(out: &mut Vec<u8>)
    ensures
        final(out)@ == old(out)@ + metadata_key(),
{
    let ghost start = out@;
    out.push(QUOTE);
    out.push(0x6d);
    out.push(0x65);
    out.push(0x74);
    out.push(0x61);
    out.push(0x64);
    out.push(0x61);
    out.push(0x74);
    out.push(0x61);
    out.push(QUOTE);
    assert(out@ =~= start + metadata_key());
}

/// A list of decimal values holds digits and commas only.
proof fn lemma_decimal_list_no_bracket(d: Seq<u8>)
    ensures
        forall|k: int| 0 <= k < decimal_list(d).len() ==> decimal_list(d)[k] < 0x3a,
    decreases d.len(),
{
    if d.len() == 1 {
        lemma_decimal_digits(d[0]);
    } else if d.len() > 1 {
        lemma_decimal_list_no_bracket(d.drop_last());
        lemma_decimal_digits(d.last());
        let l = decimal_list(d.drop_last());
        assert forall|k: int| 0 <= k < decimal_list(d).len() implies decimal_list(d)[k]
            != CLOSE_BRACKET by {
            if k < l.len() {
                assert(decimal_list(d)[k] == l[k]);
            } else if k > l.len() {
                assert(decimal_list(d)[k] == decimal(d.last())[k - l.len() - 1]);
            }
        }
    }
}

/// Decimal digits are the bytes `0` to `9`.
proof fn lemma_decimal_digits(x: u8)
    ensures
        forall|k: int| 0 <= k < decimal(x).len() ==> 0x30 <= #[trigger] decimal(x)[k] <= 0x39,
{
    assert(x / 100 <= 2);
    assert((x / 10) % 10 <= 9);
    assert(x % 10 <= 9);
}

proof fn lemma_array_close(b: Seq<u8>, i: int, e: int)
    requires
        0 <= i <= e < b.len(),
        forall|k: int| i <= k < e ==> b[k] != CLOSE_BRACKET,
        b[e] == CLOSE_BRACKET,
    ensures
        array_close(b, i) == e,
    decreases e - i,
{
    if i < e {
        lemma_array_close(b, i + 1, e);
    }
}

/// The key tokens are the JSON string tokens of the field names.
proof fn lemma_key_tokens()
    ensures
        data_key() == string_token(data_name()),
        metadata_key() == string_token(metadata_name()),
        data_name() != metadata_name(),
{
    reveal_strlit("compressed_data");
    reveal_strlit("metadata");
    let d = data_name();
    let m = metadata_name();
    assert(is_ascii_chars(d));
    assert(is_ascii_chars(m));
    is_ascii_chars_encode_utf8(d);
    is_ascii_chars_encode_utf8(m);
    assert(encode_utf8(d) =~= data_key().subrange(1, 16));
    assert(encode_utf8(m) =~= metadata_key().subrange(1, 9));
    lemma_escaped_high(encode_utf8(d));
    lemma_escaped_high(encode_utf8(m));
    assert(string_token(d) =~= data_key());
    assert(string_token(m) =~= metadata_key());
    assert(d.len() != m.len());
}

/// Scanning a string body written by `escaped` stops at the quote after it.
proof fn lemma_string_close_escaped(b: Seq<u8>, i: int, x: Seq<u8>)
    requires
        0 <= i,
        i + escaped(x).len() < b.len(),
        b.subrange(i, i + escaped(x).len()) == escaped(x),
        b[i + escaped(x).len()] == QUOTE,
    ensures
        string_close(b, i) == i + escaped(x).len(),
    decreases x.len(),
{
    if x.len() == 0 {
        assert(escaped(x).len() == 0);
    } else {
        let c = x[0];
        let e = escape_byte(c);
        let rest = escaped(x.drop_first());
        let n = e.len() as int;
        assert(escaped(x) == e + rest);
        assert(b.subrange(i + n, i + n + rest.len()) =~= rest) by {
            assert forall|k: int| 0 <= k < rest.len() implies b.subrange(i + n, i + n + rest.len())[k] == rest[k] by {
                assert(b.subrange(i, i + escaped(x).len())[n + k] == escaped(x)[n + k]);
            }
        }
        assert(b[i + n + rest.len()] == QUOTE);
        lemma_string_close_escaped(b, i + n, x.drop_first());
        assert forall|k: int| 0 <= k < n implies b[i + k] == e[k] by {
            assert(b.subrange(i, i + escaped(x).len())[k] == escaped(x)[k]);
        }
        if c != QUOTE && c != BACKSLASH && c >= 0x20 {
            assert(e == seq![c]);
            assert(b[i + 0] == e[0]);
        } else if c == QUOTE || c == BACKSLASH || c == 0x08 || c == 0x0c || c == 0x0a || c == 0x0d
            || c == 0x09 {
            assert(e.len() == 2 && e[0] == BACKSLASH);
            assert(b[i] == BACKSLASH);
        } else {
            assert(n == 6);
            assert(b[i] == BACKSLASH);
            assert(c / 16 < 2);
            assert(b[i + 2] == 0x30 && b[i + 3] == 0x30);
            assert(b[i + 4] == hex_digit(c / 16) && b[i + 5] == hex_digit(c % 16));
            assert(string_close(b, i + 5) == string_close(b, i + 6));
            assert(string_close(b, i + 4) == string_close(b, i + 5));
            assert(string_close(b, i + 3) == string_close(b, i + 4));
            assert(string_close(b, i + 2) == string_close(b, i + 3));
        }
    }
}

/// Where the parts of a module's text form lie, before any key is decoded.
#[verifier::rlimit(80)]
proof fn lemma_record_parts(v: ModuleView)
    ensures
        ({
            let b = record_bytes(v);
            let al = array_token(v.compressed_data).len() as int;
            let tl = string_token(v.metadata).len() as int;
            &&& b.len() == 32 + al + tl
            &&& skip_ws(b, 0) == 0 && b[0] == OPEN_BRACE
            &&& skip_ws(b, 1) == 1 && b[1] == QUOTE && string_close(b, 2) == 17
            &&& b.subrange(1, 18) == data_key()
            &&& field_value(b, 18, true) == Some((true, 19int, 19 + al))
            &&& skip_ws(b, 19 + al) == 19 + al && b[19 + al] == COMMA
            &&& skip_ws(b, 20 + al) == 20 + al && b[20 + al] == QUOTE
            &&& string_close(b, 21 + al) == 29 + al
            &&& b.subrange(20 + al, 30 + al) == metadata_key()
            &&& field_value(b, 30 + al, false) == Some((false, 31 + al, 31 + al + tl))
            &&& skip_ws(b, 31 + al + tl) == 31 + al + tl && b[31 + al + tl] == CLOSE_BRACE
            &&& skip_ws(b, 32 + al + tl) == b.len()
            &&& b.subrange(19, 19 + al) == array_token(v.compressed_data)
            &&& b.subrange(31 + al, 31 + al + tl) == string_token(v.metadata)
        }),
{
    let b = record_bytes(v);
    let a = array_token(v.compressed_data);
    let t = string_token(v.metadata);
    let x = escaped(encode_utf8(v.metadata));
    let al = a.len() as int;
    let tl = t.len() as int;
    lemma_key_tokens();
    assert(b =~= seq![OPEN_BRACE] + data_key() + seq![COLON] + a + seq![COMMA] + metadata_key()
        + seq![COLON] + t + seq![CLOSE_BRACE]);
    assert(b.len() == 32 + al + tl);
    assert(b.subrange(19, 19 + al) =~= a);
    assert(b.subrange(31 + al, 31 + al + tl) =~= t);
    assert(b.subrange(1, 18) =~= data_key());
    assert(b.subrange(20 + al, 30 + al) =~= metadata_key());
    // the data field
    assert(skip_ws(b, 0) == 0);
    assert(skip_ws(b, 1) == 1);
    let dx = escaped(encode_utf8(data_name()));
    assert(dx.len() == 15);
    assert(b.subrange(2, 17) =~= dx);
    lemma_string_close_escaped(b, 2, encode_utf8(data_name()));
    assert(skip_ws(b, 18) == 18);
    assert(skip_ws(b, 19) == 19);
    lemma_decimal_list_no_bracket(v.compressed_data);
    assert forall|k: int| 19 <= k < 18 + al implies b[k] != CLOSE_BRACKET by {
        assert(b[k] == a[k - 19]);
    }
    lemma_array_close(b, 19, 18 + al);
    // the metadata field
    assert(skip_ws(b, 19 + al) == 19 + al);
    assert(skip_ws(b, 20 + al) == 20 + al);
    let mx = escaped(encode_utf8(metadata_name()));
    assert(mx.len() == 8);
    assert(b.subrange(21 + al, 29 + al) =~= mx);
    lemma_string_close_escaped(b, 21 + al, encode_utf8(metadata_name()));
    assert(skip_ws(b, 30 + al) == 30 + al);
    assert(skip_ws(b, 31 + al) == 31 + al);
    assert(b.subrange(32 + al, 32 + al + x.len()) =~= x);
    lemma_string_close_escaped(b, 32 + al, encode_utf8(v.metadata));
    assert(skip_ws(b, 31 + al + tl) == 31 + al + tl);
    assert(skip_ws(b, 32 + al + tl) == 32 + al + tl);
}

/// Where the value tokens lie in a module's text form, once the key tokens
/// are known to read as the field names.
proof fn lemma_record_layout(v: ModuleView)
    requires
        json_string(data_key()) == Some(data_name()),
        json_string(metadata_key()) == Some(metadata_name()),
    ensures
        ({
            let b = record_bytes(v);
            let a = array_token(v.compressed_data);
            let t = string_token(v.metadata);
            &&& record_layout(b) == Some(
                (19int, 19 + a.len() as int, 31 + a.len() as int, 31 + a.len() as int + t.len() as int),
            )
            &&& b.subrange(19, 19 + a.len() as int) == a
            &&& b.subrange(31 + a.len() as int, 31 + a.len() as int + t.len() as int) == t
        }),
{
    lemma_record_parts(v);
    lemma_key_tokens();
}

/// Relies on `serde_json::from_slice::<Vec<u8>>`: the bytes of a JSON array
/// token, which for the token written here of some bytes are those bytes.
#[verifier::external_body]
fn decode_byte_array(tok: &[u8]) -> (r: Option<Vec<u8>>)
    ensures
        r is Some <==> json_byte_array(tok@) is Some,
        r is Some ==> r->0@ == json_byte_array(tok@)->0,
        forall|d: Seq<u8>| tok@ == array_token(d) ==> (r is Some && r->0@ == d),
{
    serde_json::from_slice::<Vec<u8>>(tok).ok()
}

/// Relies on `serde_json::from_slice::<String>`: the text of a JSON string
/// token, which for the token written here of some text is that text.
#[verifier::external_body]
fn decode_string(tok: &[u8]) -> (r: Option<String>)
    ensures
        r is Some <==> json_string(tok@) is Some,
        r is Some ==> r->0@ == json_string(tok@)->0,
        forall|s: Seq<char>| tok@ == string_token(s) ==> (r is Some && r->0@ == s),
{
    serde_json::from_slice::<String>(tok).ok()
}

fn skip_ws_exec(b: &[u8], i: usize) -> (r: usize)
    requires
        i <= b@.len(),
    ensures
        r == skip_ws(b@, i as int),
        i <= r <= b@.len(),
{
    let mut j = i;
    while j < b.len() && (b[j] == 0x20 || b[j] == 0x09 || b[j] == 0x0a || b[j] == 0x0d)
        invariant
            i <= j <= b@.len(),
            skip_ws(b@, j as int) == skip_ws(b@, i as int),
        decreases b@.len() - j,
    {
        j = j + 1;
    }
    j
}

fn string_close_exec(b: &[u8], i: usize) -> (r: usize)
    requires
        i <= b@.len(),
    ensures
        r == string_close(b@, i as int),
        i <= r <= b@.len(),
{
    let mut j = i;
    while j < b.len()
        invariant
            i <= j <= b@.len(),
            string_close(b@, j as int) == string_close(b@, i as int),
        decreases b@.len() - j,
    {
        if b[j] == QUOTE {
            return j;
        } else if b[j] == BACKSLASH {
            if j + 1 >= b.len() {
                return b.len();
            }
            j = j + 2;
        } else {
            j = j + 1;
        }
    }
    b.len()
}

fn array_close_exec(b: &[u8], i: usize) -> (r: usize)
    requires
        i <= b@.len(),
    ensures
        r == array_close(b@, i as int),
        i <= r <= b@.len(),
{
    let mut j = i;
    while j < b.len()
        invariant
            i <= j <= b@.len(),
            array_close(b@, j as int) == array_close(b@, i as int),
        decreases b@.len() - j,
    {
        if b[j] == CLOSE_BRACKET {
            return j;
        }
        j = j + 1;
    }
    b.len()
}

fn field_value_exec(b: &[u8], j: usize, is_data: bool) -> (r: Option<(bool, usize, usize)>)
    requires
        j <= b@.len(),
    ensures
        match r {
            Some((k, s, e)) => field_value(b@, j as int, is_data) == Some((k, s as int, e as int))
                && s < e <= b@.len(),
            None => field_value(b@, j as int, is_data) is None,
        },
{
    let c = skip_ws_exec(b, j);
    if !(c < b.len() && b[c] == COLON) {
        return None;
    }
    let v = skip_ws_exec(b, c + 1);
    if v >= b.len() {
        return None;
    }
    if is_data {
        let e = array_close_exec(b, v);
        if b[v] == OPEN_BRACKET && e < b.len() {
            Some((true, v, e + 1))
        } else {
            None
        }
    } else {
        let e = string_close_exec(b, v + 1);
        if b[v] == QUOTE && e < b.len() {
            Some((false, v, e + 1))
        } else {
            None
        }
    }
}

fn field_at_exec(b: &[u8], i: usize) -> (r: Option<(bool, usize, usize)>)
    requires
        i <= b@.len(),
    ensures
        match r {
            Some((k, s, e)) => field_at(b@, i as int) == Some((k, s as int, e as int)) && s < e
                <= b@.len(),
            None => field_at(b@, i as int) is None,
        },
        ({
            let e = string_close(b@, i + 1);
            i < b@.len() && b@[i as int] == QUOTE && e < b@.len() ==> {
                &&& b@.subrange(i as int, e + 1) == data_key() ==> json_string(data_key()) == Some(
                    data_name(),
                )
                &&& b@.subrange(i as int, e + 1) == metadata_key() ==> json_string(metadata_key())
                    == Some(metadata_name())
            }
        }),
{
    if !(i < b.len() && b[i] == QUOTE) {
        return None;
    }
    let e = string_close_exec(b, i + 1);
    if e >= b.len() {
        return None;
    }
    let tok = copy_range(b, i, e + 1);
    let key = decode_string(tok.as_slice());
    proof {
        lemma_key_tokens();
    }
    match key {
        None => None,
        Some(k) => {
            let data_name_text = String::from_str("compressed_data");
            let metadata_name_text = String::from_str("metadata");
            if k == data_name_text {
                field_value_exec(b, e + 1, true)
            } else if k == metadata_name_text {
                field_value_exec(b, e + 1, false)
            } else {
                None
            }
        },
    }
}

fn record_layout_exec(b: &[u8]) -> (r: Option<(usize, usize, usize, usize)>)
    ensures
        match r {
            Some((ds, de, ms, me)) => record_layout(b@) == Some(
                (ds as int, de as int, ms as int, me as int),
            ) && ds <= de <= b@.len() && ms <= me <= b@.len(),
            None => record_layout(b@) is None,
        },
        forall|v: ModuleView|
            b@ == record_bytes(v) ==> json_string(data_key()) == Some(data_name()) && json_string(
                metadata_key(),
            ) == Some(metadata_name()),
{
    proof {
        if exists|v: ModuleView| b@ == record_bytes(v) {
            let v = choose|v: ModuleView| b@ == record_bytes(v);
            lemma_record_parts(v);
            lemma_key_tokens();
        }
    }
    let p0 = skip_ws_exec(b, 0);
    if !(p0 < b.len() && b[p0] == OPEN_BRACE) {
        return None;
    }
    let q0 = skip_ws_exec(b, p0 + 1);
    let first = field_at_exec(b, q0);
    let (k1, s1, e1) = match first {
        Some(f) => f,
        None => {
            return None;
        },
    };
    let p1 = skip_ws_exec(b, e1);
    if !(p1 < b.len() && b[p1] == COMMA) {
        return None;
    }
    let q1 = skip_ws_exec(b, p1 + 1);
    let second = field_at_exec(b, q1);
    let (k2, s2, e2) = match second {
        Some(f) => f,
        None => {
            return None;
        },
    };
    let p2 = skip_ws_exec(b, e2);
    if !(p2 < b.len() && b[p2] == CLOSE_BRACE) {
        return None;
    }
    let end = skip_ws_exec(b, p2 + 1);
    if !(end == b.len() && k1 != k2) {
        return None;
    }
    if k1 {
        Some((s1, e1, s2, e2))
    } else {
        Some((s2, e2, s1, e1))
    }
}

impl MemoryModule {
    /// Writes the module's text form, whose UTF-8 bytes are `record_bytes`.
    /// It always succeeds.
    pub fn to_json(&self) -> (r: Result<String, StreamlinerError>)
        ensures
            r is Ok,
            encode_utf8(r->Ok_0@) == record_bytes(self@),
    {
        proof {
            lemma_record_valid_utf8(self@);
        }
        let mut out: Vec<u8> = Vec::new();
        out.push(OPEN_BRACE);
        push_data_key(&mut out);
        out.push(COLON);
        push_array_token(&mut out, self.compressed_data());
        out.push(COMMA);
        push_metadata_key(&mut out);
        out.push(COLON);
        push_string_token(&mut out, self.metadata());
        out.push(CLOSE_BRACE);
        assert(out@ =~= record_bytes(self@));
        match utf8_to_string(out) {
            Some(text) => {
                proof {
                    broadcast use vstd::utf8::group_utf8_lib;
                }
                Ok(text)
            },
            None => Err(StreamlinerError::SerializationError(String::from_str("record is not valid UTF-8"))),
        }
    }

    /// Reads a module from its text form. It succeeds exactly on the texts
    /// that `parse_record` accepts, and reads back any module's text form as
    /// that module. Whether the bytes can be expanded is not looked at.
    /// Keys are read as JSON strings, so a key spelled with escapes names its
    /// field as well.
    pub fn from_json(json: &str) -> (r: Result<MemoryModule, StreamlinerError>)
        ensures
            r is Ok <==> parse_record(encode_utf8(json@)) is Some,
            r is Ok ==> r->Ok_0@ == parse_record(encode_utf8(json@))->0,
            r is Err ==> r->Err_0 is SerializationError,
            forall|v: ModuleView| encode_utf8(json@) == record_bytes(v) ==> (r is Ok && r->Ok_0@ == v),
    {
        let b = json.as_bytes();
        let layout = record_layout_exec(b);
        let (ds, de, ms, me) = match layout {
            Some(l) => l,
            None => {
                proof {
                    assert forall|v: ModuleView| b@ != record_bytes(v) by {
                        if b@ == record_bytes(v) {
                            lemma_record_layout(v);
                        }
                    }
                }
                return Err(StreamlinerError::SerializationError(String::from_str("expected an object with the fields compressed_data and metadata")));
            },
        };
        let data_tok = copy_range(b, ds, de);
        let meta_tok = copy_range(b, ms, me);
        let data = decode_byte_array(data_tok.as_slice());
        let meta = decode_string(meta_tok.as_slice());
        proof {
            assert forall|v: ModuleView| b@ == record_bytes(v) implies (data is Some && data->0@
                == v.compressed_data && meta is Some && meta->0@ == v.metadata) by {
                lemma_record_layout(v);
            }
        }
        match (data, meta) {
            (Some(d), Some(m)) => Ok(MemoryModule::from_parts(d, m)),
            (None, _) => Err(StreamlinerError::SerializationError(String::from_str("compressed_data is not an array of bytes"))),
            (_, None) => Err(StreamlinerError::SerializationError(String::from_str("metadata is not a string"))),
        }
    }
}

} // verus!
