//! What the parser makes of the frames the writer produces.

use vstd::prelude::*;
use crate::protocol::resp::{
    SpecResp,
    ParseError,
    spec_parse,
    spec_parse_items,
    crlf_from,
    lemma_crlf_bounds,
    decimal_spec,
    parse_i64_spec,
    all_digits,
    digits_value,
    is_digit,
};
use crate::protocol::writer::{
    dec_nat,
    dec_int,
    crlf,
    simple_string_frame,
    error_frame,
    bulk_frame,
    int_frame,
    null_frame,
    array_header_frame,
};
use crate::commands::handlers::concat_bulks;

verus! {

/// The decimal digits of `n` are ASCII digits that denote `n`.
pub proof fn lemma_dec_nat(n: nat)
    ensures
        dec_nat(n).len() >= 1,
        all_digits(dec_nat(n)),
        digits_value(dec_nat(n)) == n,
        !(dec_nat(n)[0] == 43u8 || dec_nat(n)[0] == 45u8),
    decreases n,
{
    if n >= 10 {
        lemma_dec_nat(n / 10);
        let d = dec_nat(n / 10);
        let b = (48 + n % 10) as u8;
        assert(dec_nat(n) == d.push(b));
        assert(d.push(b).drop_last() =~= d);
        assert(d.push(b)[0] == d[0]);
        assert forall|i: int| 0 <= i < d.push(b).len() implies is_digit(#[trigger] d.push(b)[i]) by {
            if i < d.len() {
                assert(is_digit(d[i]));
            }
        }
        assert(b - 48 == n % 10);
        assert(n == (n / 10) * 10 + n % 10) by (nonlinear_arith);
        assert(digits_value(d.push(b)) == digits_value(d) * 10 + (b - 48));
    } else {
        let b = (48 + n) as u8;
        assert(dec_nat(n) == seq![b]);
        assert(seq![b].drop_last() =~= Seq::<u8>::empty());
        assert(digits_value(seq![b]) == digits_value(Seq::<u8>::empty()) * 10 + (b - 48));
    }
}

/// ASCII bytes are valid UTF-8.
pub proof fn lemma_ascii_utf8(d: Seq<u8>)
    requires
        forall|i: int| 0 <= i < d.len() ==> (#[trigger] d[i]) <= 0x7fu8,
    ensures
        vstd::utf8::valid_utf8(d),
{
    assert(vstd::utf8::partial_valid_utf8(d, 0)) by {
        assert(d.subrange(0, 0) =~= Seq::<u8>::empty());
    }
    assert forall|i: int| 0 <= 0 <= i < d.len() <= d.len() implies #[trigger] vstd::utf8::is_leading_byte_width_1(
        d[i],
    ) by {
        assert(d[i] <= 0x7fu8);
    }
    vstd::utf8::partial_valid_utf8_extend_ascii_block(d, 0, d.len() as int);
    assert(d.subrange(0, d.len() as int) =~= d);
}

/// ASCII digits are valid UTF-8.
proof fn lemma_digits_utf8(d: Seq<u8>)
    requires
        all_digits(d),
    ensures
        vstd::utf8::valid_utf8(d),
{
    assert forall|i: int| 0 <= i < d.len() implies (#[trigger] d[i]) <= 0x7fu8 by {
        assert(is_digit(d[i]));
    }
    lemma_ascii_utf8(d);
}

/// The decimal form of an `i64` reads back as that number.
pub proof fn lemma_decimal_roundtrip(n: i64)
    ensures
        decimal_spec(dec_int(n as int)) == Ok::<i64, ParseError>(n),
{
    if n < 0 {
        let m = (-(n as int)) as nat;
        lemma_dec_nat(m);
        let d = dec_nat(m);
        let b = seq![45u8] + d;
        assert(b.subrange(1, b.len() as int) =~= d);
        assert(forall|i: int| 0 <= i < b.len() ==> #[trigger] vstd::utf8::is_leading_byte_width_1(b[i])) by {
            assert forall|i: int| 0 <= i < b.len() implies #[trigger] vstd::utf8::is_leading_byte_width_1(b[i]) by {
                if i > 0 {
                    assert(b[i] == d[i - 1]);
                    assert(is_digit(d[i - 1]));
                }
            }
        }
        assert(vstd::utf8::partial_valid_utf8(b, 0)) by {
            assert(b.subrange(0, 0) =~= Seq::<u8>::empty());
        }
        vstd::utf8::partial_valid_utf8_extend_ascii_block(b, 0, b.len() as int);
        assert(b.subrange(0, b.len() as int) =~= b);
        assert(parse_i64_spec(b) == Some(n));
    } else {
        lemma_dec_nat(n as nat);
        lemma_digits_utf8(dec_nat(n as nat));
        assert(parse_i64_spec(dec_nat(n as nat)) == Some(n));
    }
}

/// The first `\r\n` at or after `i` is at `p` when no `\r` comes before it.
proof fn lemma_crlf_at(s: Seq<u8>, i: int, p: int)
    requires
        0 <= i <= p,
        p + 1 < s.len(),
        s[p] == 13u8,
        s[p + 1] == 10u8,
        forall|j: int| i <= j < p ==> !(#[trigger] s[j] == 13u8 && s[j + 1] == 10u8),
    ensures
        crlf_from(s, i) == Some(p),
    decreases p - i,
{
    if i < p {
        lemma_crlf_at(s, i + 1, p);
    }
}

/// Whether `s` holds no `\r\n`.
pub open spec fn no_crlf(s: Seq<u8>) -> bool {
    forall|j: int| 0 <= j < s.len() - 1 ==> !(#[trigger] s[j] == 13u8 && s[j + 1] == 10u8)
}

proof fn lemma_line_frame(t: u8, body: Seq<u8>, rest: Seq<u8>)
    requires
        no_crlf(body),
    ensures
        crlf_from(seq![t] + body + crlf() + rest, 1) == Some(1 + body.len() as int),
        (seq![t] + body + crlf() + rest).subrange(1, 1 + body.len() as int) == body,
{
    let s = seq![t] + body + crlf() + rest;
    let p: int = 1 + body.len() as int;
    assert(s[p] == 13u8);
    assert(s[p + 1] == 10u8);
    assert forall|j: int| 1 <= j < p implies !(#[trigger] s[j] == 13u8 && s[j + 1] == 10u8) by {
        assert(s[j] == body[j - 1]);
        if j + 1 < p {
            assert(s[j + 1] == body[j]);
        } else {
            assert(s[j + 1] == 13u8);
        }
    }
    lemma_crlf_at(s, 1, p);
    assert(s.subrange(1, p) =~= body);
}

/// A simple string without `\r\n` reads back as itself, whatever follows it.
pub proof fn law_simple_string_roundtrip(text: Seq<u8>, rest: Seq<u8>)
    requires
        no_crlf(text),
    ensures
        spec_parse(simple_string_frame(text) + rest) == Ok::<(SpecResp, int), ParseError>(
            (SpecResp::SimpleString(text), simple_string_frame(text).len() as int),
        ),
{
    lemma_line_frame(43u8, text, rest);
    assert(simple_string_frame(text) + rest =~= seq![43u8] + text + crlf() + rest);
}

/// An error message without `\r\n` reads back as itself, whatever follows it.
pub proof fn law_error_roundtrip(msg: Seq<u8>, rest: Seq<u8>)
    requires
        no_crlf(msg),
    ensures
        spec_parse(error_frame(msg) + rest) == Ok::<(SpecResp, int), ParseError>(
            (SpecResp::Error(msg), error_frame(msg).len() as int),
        ),
{
    lemma_line_frame(45u8, msg, rest);
    assert(error_frame(msg) + rest =~= seq![45u8] + msg + crlf() + rest);
}

/// An integer reply reads back as its number, whatever follows it.
pub proof fn law_int_roundtrip(n: i64, rest: Seq<u8>)
    ensures
        spec_parse(int_frame(n as int) + rest) == Ok::<(SpecResp, int), ParseError>(
            (SpecResp::Integer(n as int), int_frame(n as int).len() as int),
        ),
{
    let d = dec_int(n as int);
    lemma_decimal_roundtrip(n);
    if n < 0 {
        lemma_dec_nat((-(n as int)) as nat);
    } else {
        lemma_dec_nat(n as nat);
    }
    assert(no_crlf(d)) by {
        assert forall|j: int| 0 <= j < d.len() - 1 implies !(#[trigger] d[j] == 13u8 && d[j + 1] == 10u8) by {
            if n < 0 {
                if j > 0 {
                    assert(is_digit(dec_nat((-(n as int)) as nat)[j - 1]));
                }
            } else {
                assert(is_digit(dec_nat(n as nat)[j]));
            }
        }
    }
    lemma_line_frame(58u8, d, rest);
    assert(int_frame(n as int) + rest =~= seq![58u8] + d + crlf() + rest);
}

/// A bulk string reads back as its bytes, whatever they hold and whatever
/// follows it.
pub proof fn law_bulk_roundtrip(data: Seq<u8>, rest: Seq<u8>)
    requires
        data.len() <= i64::MAX,
    ensures
        spec_parse(bulk_frame(data) + rest) == Ok::<(SpecResp, int), ParseError>(
            (SpecResp::BulkString(data), bulk_frame(data).len() as int),
        ),
{
    let n = data.len() as i64;
    let d = dec_nat(data.len());
    assert(dec_int(n as int) == d);
    lemma_decimal_roundtrip(n);
    lemma_dec_nat(data.len());
    assert(no_crlf(d)) by {
        assert forall|j: int| 0 <= j < d.len() - 1 implies !(#[trigger] d[j] == 13u8 && d[j + 1] == 10u8) by {
            assert(is_digit(d[j]));
        }
    }
    let tail = data + crlf() + rest;
    lemma_line_frame(36u8, d, tail);
    let s = bulk_frame(data) + rest;
    assert(s =~= seq![36u8] + d + crlf() + tail);
    let e: int = 1 + d.len() as int;
    assert(s.subrange(e + 2, e + 2 + data.len() as int) =~= data);
}

/// The null bulk string reads back as null, whatever follows it.
pub proof fn law_null_roundtrip(rest: Seq<u8>)
    ensures
        spec_parse(null_frame() + rest) == Ok::<(SpecResp, int), ParseError>((SpecResp::Null, 5)),
{
    let s = null_frame() + rest;
    let d = seq![45u8, 49u8];
    assert(s =~= seq![36u8] + d + crlf() + rest);
    assert(no_crlf(d));
    lemma_line_frame(36u8, d, rest);
    lemma_decimal_roundtrip(-1i64);
    assert(dec_int(-1) =~= d) by {
        assert(dec_nat(1) =~= seq![49u8]);
    }
}

/// The bulk frames of a list start with the frame of its first item.
pub proof fn lemma_concat_bulks_first(items: Seq<Seq<u8>>)
    requires
        items.len() > 0,
    ensures
        concat_bulks(items) == bulk_frame(items[0]) + concat_bulks(items.drop_first()),
    decreases items.len(),
{
    if items.len() == 1 {
        assert(items.drop_last() =~= Seq::<Seq<u8>>::empty());
        assert(items.drop_first() =~= Seq::<Seq<u8>>::empty());
        assert(concat_bulks(items) =~= bulk_frame(items[0]) + concat_bulks(items.drop_first()));
    } else {
        let pre = items.drop_last();
        lemma_concat_bulks_first(pre);
        assert(pre.drop_first() =~= items.drop_first().drop_last());
        assert(items.drop_first().last() == items.last());
        assert(pre[0] == items[0]);
        assert(concat_bulks(items) =~= bulk_frame(items[0]) + concat_bulks(items.drop_first()));
    }
}

/// Whether every item fits the length field of a bulk string.
pub open spec fn bulk_sized(items: Seq<Seq<u8>>) -> bool {
    forall|i: int| 0 <= i < items.len() ==> (#[trigger] items[i]).len() <= i64::MAX
}

/// The bulk strings of a list of byte strings.
pub open spec fn bulk_values(items: Seq<Seq<u8>>) -> Seq<SpecResp> {
    items.map_values(|x: Seq<u8>| SpecResp::BulkString(x))
}

proof fn lemma_parse_bulk_items(s: Seq<u8>, off: int, items: Seq<Seq<u8>>, rest: Seq<u8>)
    requires
        0 <= off <= s.len(),
        s.subrange(off, s.len() as int) == concat_bulks(items) + rest,
        bulk_sized(items),
    ensures
        spec_parse_items(s, off, items.len()) == Ok::<(Seq<SpecResp>, int), ParseError>(
            (bulk_values(items), off + concat_bulks(items).len()),
        ),
    decreases items.len(),
{
    if items.len() == 0 {
        assert(bulk_values(items) =~= Seq::<SpecResp>::empty());
    } else {
        lemma_concat_bulks_first(items);
        let x0 = items[0];
        let more = items.drop_first();
        let tail = concat_bulks(more) + rest;
        assert(s.subrange(off, s.len() as int) =~= bulk_frame(x0) + tail);
        law_bulk_roundtrip(x0, tail);
        let c = bulk_frame(x0).len() as int;
        assert(s.subrange(off + c, s.len() as int) =~= tail) by {
            assert forall|j: int| 0 <= j < tail.len() implies s.subrange(off + c, s.len() as int)[j] == tail[j] by {
                assert(s.subrange(off, s.len() as int)[c + j] == (bulk_frame(x0) + tail)[c + j]);
            }
        }
        assert(bulk_sized(more)) by {
            assert forall|i: int| 0 <= i < more.len() implies (#[trigger] more[i]).len() <= i64::MAX by {
                assert(more[i] == items[i + 1]);
            }
        }
        lemma_parse_bulk_items(s, off + c, more, rest);
        assert(seq![SpecResp::BulkString(x0)] + bulk_values(more) =~= bulk_values(items));
    }
}

/// An array of bulk strings, the form of a request, reads back as those
/// strings, whatever they hold and whatever follows the array.
pub proof fn law_bulk_array_roundtrip(items: Seq<Seq<u8>>, rest: Seq<u8>)
    requires
        bulk_sized(items),
        items.len() <= i64::MAX,
    ensures
        spec_parse(array_header_frame(items.len()) + concat_bulks(items) + rest) == Ok::<
            (SpecResp, int),
            ParseError,
        >(
            (
                SpecResp::Array(bulk_values(items)),
                (array_header_frame(items.len()) + concat_bulks(items)).len() as int,
            ),
        ),
{
    let n = items.len() as i64;
    let d = dec_nat(items.len());
    assert(dec_int(n as int) == d);
    lemma_decimal_roundtrip(n);
    lemma_dec_nat(items.len());
    assert(no_crlf(d)) by {
        assert forall|j: int| 0 <= j < d.len() - 1 implies !(#[trigger] d[j] == 13u8 && d[j + 1] == 10u8) by {
            assert(is_digit(d[j]));
        }
    }
    let body = concat_bulks(items) + rest;
    lemma_line_frame(42u8, d, body);
    let s = array_header_frame(items.len()) + concat_bulks(items) + rest;
    assert(s =~= seq![42u8] + d + crlf() + body);
    let e: int = 1 + d.len() as int;
    assert(s.subrange(e + 2, s.len() as int) =~= body);
    lemma_parse_bulk_items(s, e + 2, items, rest);
}

/// Whether `u` holds the first `c` bytes of `s`.
pub open spec fn agrees(s: Seq<u8>, u: Seq<u8>, c: int) -> bool {
    &&& 0 <= c <= s.len()
    &&& c <= u.len()
    &&& forall|j: int| 0 <= j < c ==> u[j] == s[j]
}

proof fn lemma_crlf_agree(s: Seq<u8>, u: Seq<u8>, i: int, e: int)
    requires
        0 <= i,
        crlf_from(s, i) == Some(e),
        agrees(s, u, e + 2),
    ensures
        crlf_from(u, i) == Some(e),
    decreases e - i,
{
    lemma_crlf_bounds(s, i);
    if i < e {
        assert(u[i] == s[i] && u[i + 1] == s[i + 1]);
        lemma_crlf_agree(s, u, i + 1, e);
    } else {
        assert(u[e] == s[e] && u[e + 1] == s[e + 1]);
    }
}

proof fn lemma_items_advance(s: Seq<u8>, off: int, k: nat)
    ensures
        spec_parse_items(s, off, k) matches Ok((vs, o)) ==> o >= off && vs.len() == k,
    decreases s.len() - off, k,
{
    if k > 0 && 0 <= off <= s.len() {
        match spec_parse(s.subrange(off, s.len() as int)) {
            Ok((v, c)) => {
                if 0 < c && c <= s.len() - off {
                    lemma_items_advance(s, off + c, (k - 1) as nat);
                }
            },
            Err(_) => {},
        }
    }
}

proof fn lemma_parse_agree(s: Seq<u8>, u: Seq<u8>)
    requires
        spec_parse(s) is Ok,
        agrees(s, u, spec_parse(s)->Ok_0.1),
    ensures
        spec_parse(u) == spec_parse(s),
    decreases s.len(), 0int,
{
    let c = spec_parse(s)->Ok_0.1;
    lemma_parse_consumed(s);
    assert(u[0] == s[0]);
    lemma_crlf_bounds(s, 1);
    let e = crlf_from(s, 1)->Some_0;
    if s[0] == 42 {
        match decimal_spec(s.subrange(1, e)) {
            Ok(n) => {
                if n >= 0 {
                    lemma_items_advance(s, e + 2, n as nat);
                }
            },
            Err(_) => {},
        }
    }
    assert(e + 2 <= c);
    lemma_crlf_agree(s, u, 1, e);
    assert(u.subrange(1, e) =~= s.subrange(1, e));
    if s[0] == 36 {
        match decimal_spec(s.subrange(1, e)) {
            Ok(n) => {
                if n >= 0 {
                    assert(u.subrange(e + 2, e + 2 + n) =~= s.subrange(e + 2, e + 2 + n));
                }
            },
            Err(_) => {},
        }
    } else if s[0] == 42 {
        match decimal_spec(s.subrange(1, e)) {
            Ok(n) => {
                if n >= 0 {
                    lemma_items_agree(s, u, e + 2, n as nat);
                }
            },
            Err(_) => {},
        }
    }
}

proof fn lemma_items_agree(s: Seq<u8>, u: Seq<u8>, off: int, k: nat)
    requires
        spec_parse_items(s, off, k) is Ok,
        agrees(s, u, spec_parse_items(s, off, k)->Ok_0.1),
        0 <= off,
    ensures
        spec_parse_items(u, off, k) == spec_parse_items(s, off, k),
    decreases s.len() - off, k,
{
    lemma_items_advance(s, off, k);
    if k > 0 {
        let ss = s.subrange(off, s.len() as int);
        let us = u.subrange(off, u.len() as int);
        let c = spec_parse(ss)->Ok_0.1;
        lemma_items_advance(s, off + c, (k - 1) as nat);
        assert(agrees(ss, us, c)) by {
            assert forall|j: int| 0 <= j < c implies us[j] == ss[j] by {
                assert(us[j] == u[off + j]);
                assert(ss[j] == s[off + j]);
            }
        }
        lemma_parse_agree(ss, us);
        lemma_items_agree(s, u, off + c, (k - 1) as nat);
    }
}

/// A value is read from its own bytes only: whatever follows it, the same
/// value comes out, taking the same number of bytes.
pub proof fn law_parse_ignores_what_follows(buf: Seq<u8>, extra: Seq<u8>)
    requires
        spec_parse(buf) is Ok,
    ensures
        spec_parse(buf.take(spec_parse(buf)->Ok_0.1) + extra) == spec_parse(buf),
{
    let c = spec_parse(buf)->Ok_0.1;
    lemma_parse_consumed(buf);
    let u = buf.take(c) + extra;
    assert(agrees(buf, u, c));
    lemma_parse_agree(buf, u);
}

proof fn lemma_parse_consumed(s: Seq<u8>)
    requires
        spec_parse(s) is Ok,
    ensures
        0 < spec_parse(s)->Ok_0.1 <= s.len(),
{
    lemma_crlf_bounds(s, 1);
    let e = crlf_from(s, 1)->Some_0;
    if s[0] == 42 {
        match decimal_spec(s.subrange(1, e)) {
            Ok(n) => {
                if n >= 0 {
                    lemma_items_bound(s, e + 2, n as nat);
                }
            },
            Err(_) => {},
        }
    }
}

proof fn lemma_items_bound(s: Seq<u8>, off: int, k: nat)
    requires
        0 <= off <= s.len(),
    ensures
        spec_parse_items(s, off, k) matches Ok((_, o)) ==> off <= o <= s.len(),
    decreases s.len() - off, k,
{
    if k > 0 {
        match spec_parse(s.subrange(off, s.len() as int)) {
            Ok((v, c)) => {
                if 0 < c && c <= s.len() - off {
                    lemma_items_bound(s, off + c, (k - 1) as nat);
                }
            },
            Err(_) => {},
        }
    }
}

} // verus!
