use vstd::prelude::*;
use crate::text::utf8_str;

verus! {

/// A RESP value that borrows its bytes from the parsed buffer.
#[derive(Debug, PartialEq)]
pub enum RespValue<'a> {
    SimpleString(&'a [u8]),
    Error(&'a [u8]),
    Integer(i64),
    BulkString(&'a [u8]),
    Array(Vec<RespValue<'a>>),
    Null,
}

/// Why a buffer does not start with a RESP value.
#[derive(Debug)]
pub enum ParseError {
    /// The buffer ends before the value does.
    Incomplete,
    /// The buffer cannot start with a value.
    Invalid(&'static str),
}

/// The mathematical form of a RESP value.
pub enum SpecResp {
    SimpleString(Seq<u8>),
    Error(Seq<u8>),
    Integer(int),
    BulkString(Seq<u8>),
    Array(Seq<SpecResp>),
    Null,
}

/// The mathematical form of a RESP value.
pub open spec fn resp_view<'a>(v: RespValue<'a>) -> SpecResp
    decreases v,
{
    match v {
        RespValue::SimpleString(b) => SpecResp::SimpleString(b@),
        RespValue::Error(b) => SpecResp::Error(b@),
        RespValue::Integer(n) => SpecResp::Integer(n as int),
        RespValue::BulkString(b) => SpecResp::BulkString(b@),
        RespValue::Array(items) => SpecResp::Array(resp_seq_view(items@)),
        RespValue::Null => SpecResp::Null,
    }
}

/// The mathematical forms of a sequence of RESP values.
pub open spec fn resp_seq_view<'a>(items: Seq<RespValue<'a>>) -> Seq<SpecResp>
    decreases items,
{
    if items.len() == 0 {
        Seq::empty()
    } else {
        resp_seq_view(items.drop_last()).push(resp_view(items.last()))
    }
}

/// The views of a sequence of values are the views of its elements.
pub proof fn lemma_resp_seq_view<'a>(items: Seq<RespValue<'a>>)
    ensures
        resp_seq_view(items).len() == items.len(),
        forall|i: int| 0 <= i < items.len() ==> #[trigger] resp_seq_view(items)[i] == resp_view(items[i]),
    decreases items.len(),
{
    if items.len() > 0 {
        lemma_resp_seq_view(items.drop_last());
    }
}

/// The first position `p >= i` where `s` holds the two bytes `\r\n`.
pub open spec fn crlf_from(s: Seq<u8>, i: int) -> Option<int>
    decreases s.len() - i,
{
    if i < 0 || i + 1 >= s.len() {
        None
    } else if s[i] == 13 && s[i + 1] == 10 {
        Some(i)
    } else {
        crlf_from(s, i + 1)
    }
}

pub proof fn lemma_crlf_bounds(s: Seq<u8>, i: int)
    ensures
        crlf_from(s, i) matches Some(p) ==> i <= p && p + 1 < s.len() && s[p] == 13 && s[p + 1]
            == 10,
    decreases s.len() - i,
{
    if !(i < 0 || i + 1 >= s.len()) && !(s[i] == 13 && s[i + 1] == 10) {
        lemma_crlf_bounds(s, i + 1);
    }
}

/// Whether `b` is an ASCII decimal digit.
pub open spec fn is_digit(b: u8) -> bool {
    48 <= b <= 57
}

/// Whether every byte of `d` is an ASCII decimal digit.
pub open spec fn all_digits(d: Seq<u8>) -> bool {
    forall|i: int| 0 <= i < d.len() ==> is_digit(#[trigger] d[i])
}

/// The number that the decimal digits `d` denote.
pub open spec fn digits_value(d: Seq<u8>) -> int
    decreases d.len(),
{
    if d.len() == 0 {
        0
    } else {
        digits_value(d.drop_last()) * 10 + (d.last() - 48)
    }
}

/// A 64-bit integer written as an optional `+` or `-` followed by one or more
/// decimal digits, within the range of `i64`.
pub open spec fn parse_i64_spec(b: Seq<u8>) -> Option<i64> {
    if b.len() == 0 {
        None
    } else {
        let signed = b[0] == 43 || b[0] == 45;
        let d = if signed {
            b.subrange(1, b.len() as int)
        } else {
            b
        };
        let v = if b[0] == 45 {
            -digits_value(d)
        } else {
            digits_value(d)
        };
        if d.len() == 0 || !all_digits(d) || v < i64::MIN || v > i64::MAX {
            None
        } else {
            Some(v as i64)
        }
    }
}

/// The integer written in the bytes `b`, or why there is none.
pub open spec fn decimal_spec(b: Seq<u8>) -> Result<i64, ParseError> {
    if !vstd::utf8::valid_utf8(b) {
        Err(ParseError::Invalid("non-utf8 integer"))
    } else {
        match parse_i64_spec(b) {
            Some(v) => Ok(v),
            None => Err(ParseError::Invalid("bad integer")),
        }
    }
}

/// The value at the start of `s` and the number of bytes it takes, or why there is none.
pub open spec fn spec_parse(s: Seq<u8>) -> Result<(SpecResp, int), ParseError>
    decreases s.len(), 0int,
{
    if s.len() == 0 {
        Err(ParseError::Incomplete)
    } else if s[0] == 43 || s[0] == 45 {
        match crlf_from(s, 1) {
            None => Err(ParseError::Incomplete),
            Some(e) => if s[0] == 43 {
                Ok((SpecResp::SimpleString(s.subrange(1, e)), e + 2))
            } else {
                Ok((SpecResp::Error(s.subrange(1, e)), e + 2))
            },
        }
    } else if s[0] == 58 || s[0] == 36 || s[0] == 42 {
        match crlf_from(s, 1) {
            None => Err(ParseError::Incomplete),
            Some(e) => match decimal_spec(s.subrange(1, e)) {
                Err(x) => Err(x),
                Ok(n) => if s[0] == 58 {
                    Ok((SpecResp::Integer(n as int), e + 2))
                } else if n == -1 {
                    Ok((SpecResp::Null, e + 2))
                } else if n < 0 {
                    Err(ParseError::Invalid("negetive bulk length"))
                } else if s[0] == 36 {
                    if s.len() < e + 2 + n + 2 {
                        Err(ParseError::Incomplete)
                    } else {
                        Ok((SpecResp::BulkString(s.subrange(e + 2, e + 2 + n)), e + 2 + n + 2))
                    }
                } else {
                    proof {
                        lemma_crlf_bounds(s, 1);
                    }
                    match spec_parse_items(s, e + 2, n as nat) {
                        Err(x) => Err(x),
                        Ok((items, off)) => Ok((SpecResp::Array(items), off)),
                    }
                },
            },
        }
    } else {
        Err(ParseError::Invalid("unknown type byte"))
    }
}

/// The `n` values that follow one another from position `off` of `s`, and the
/// position after them, or the first reason one of them is missing.
pub open spec fn spec_parse_items(s: Seq<u8>, off: int, n: nat) -> Result<
    (Seq<SpecResp>, int),
    ParseError,
>
    decreases s.len() - off, n,
{
    if n == 0 {
        Ok((Seq::empty(), off))
    } else if off < 0 || off > s.len() {
        Err(ParseError::Incomplete)
    } else {
        match spec_parse(s.subrange(off, s.len() as int)) {
            Err(x) => Err(x),
            Ok((v, c)) => if 0 < c && c <= s.len() - off {
                match spec_parse_items(s, off + c, (n - 1) as nat) {
                    Err(x) => Err(x),
                    Ok((vs, o)) => Ok((seq![v] + vs, o)),
                }
            } else {
                Err(ParseError::Incomplete)
            },
        }
    }
}

/// `r` with the values `pre` put in front of its values.
pub open spec fn prepend_items(pre: Seq<SpecResp>, r: Result<(Seq<SpecResp>, int), ParseError>) -> Result<
    (Seq<SpecResp>, int),
    ParseError,
> {
    match r {
        Ok((vs, o)) => Ok((pre + vs, o)),
        Err(x) => Err(x),
    }
}

/// The first position at or after `start` where `buf` holds `\r\n`.
fn find_crlf(buf: &[u8], start: usize) -> (r: Option<usize>)
    requires
        start <= buf@.len(),
    ensures
        crlf_from(buf@, start as int) == (match r {
            Some(p) => Some(p as int),
            None => None,
        }),
{
    let n = buf.len();
    let mut i = start;
    while n > 0 && i < n - 1
        invariant
            start <= i <= n,
            n == buf@.len(),
            crlf_from(buf@, start as int) == crlf_from(buf@, i as int),
        decreases n - i,
    {
        if buf[i] == 13 && buf[i + 1] == 10 {
            return Some(i);
        }
        i = i + 1;
    }
    None
}

proof fn lemma_digits_prefix(d: Seq<u8>, j: int)
    requires
        all_digits(d),
        0 <= j <= d.len(),
    ensures
        0 <= digits_value(d.take(j)) <= digits_value(d),
    decreases d.len(),
{
    if j < d.len() {
        assert(d.drop_last().take(j) =~= d.take(j));
        assert(all_digits(d.drop_last()));
        lemma_digits_prefix(d.drop_last(), j);
        assert(is_digit(d[d.len() - 1]));
    } else {
        assert(d.take(j) =~= d);
        lemma_digits_nonneg(d);
    }
}

proof fn lemma_digits_nonneg(d: Seq<u8>)
    requires
        all_digits(d),
    ensures
        digits_value(d) >= 0,
    decreases d.len(),
{
    if d.len() > 0 {
        assert(all_digits(d.drop_last()));
        lemma_digits_nonneg(d.drop_last());
        assert(is_digit(d[d.len() - 1]));
    }
}

/// The integer written as an optional sign and decimal digits.
pub fn parse_i64_bytes(b: &[u8]) -> (r: Option<i64>)
    ensures
        r == parse_i64_spec(b@),
{
    let n = b.len();
    if n == 0 {
        return None;
    }
    let first = b[0];
    let neg = first == 45;
    let start: usize = if first == 43 || first == 45 {
        1
    } else {
        0
    };
    let ghost d = if start == 1 {
        b@.subrange(1, n as int)
    } else {
        b@
    };
    if start == n {
        assert(d.len() == 0);
        return None;
    }
    assert(d =~= b@.subrange(start as int, n as int));
    let mut acc: u128 = 0;
    let mut i = start;
    assert(d.take(0) =~= Seq::<u8>::empty());
    while i < n
        invariant
            start <= i <= n,
            n == b@.len(),
            n > 0,
            start == (if b@[0] == 43 || b@[0] == 45 {
                1usize
            } else {
                0usize
            }),
            neg == (b@[0] == 45),
            start < n,
            d == b@.subrange(start as int, n as int),
            all_digits(d.take(i - start)),
            acc == digits_value(d.take(i - start)),
            acc <= 9223372036854775808u128,
        decreases n - i,
    {
        let c = b[i];
        if c < 48 || c > 57 {
            proof {
                assert(d[i - start] == c);
                assert(!is_digit(d[i - start]));
                assert(!all_digits(d));
            }
            return None;
        }
        proof {
            assert(d.take(i - start + 1).drop_last() =~= d.take(i - start));
            assert forall|k: int| 0 <= k < i - start + 1 implies is_digit(
                #[trigger] d.take(i - start + 1)[k],
            ) by {
                if k < i - start {
                    assert(d.take(i - start + 1)[k] == d.take(i - start)[k]);
                }
            }
        }
        acc = acc * 10 + (c - 48) as u128;
        proof {
            assert(d.take(i - start + 1).last() == c);
            assert(acc == digits_value(d.take(i - start + 1)));
        }
        if acc > 9223372036854775808u128 {
            proof {
                if start == 0 {
                    assert(d =~= b@);
                }
                if all_digits(d) {
                    lemma_digits_prefix(d, i - start + 1);
                    assert(digits_value(d) > 9223372036854775808);
                }
            }
            return None;
        }
        i = i + 1;
    }
    assert(d.take(n - start) =~= d);
    if neg {
        Some((0i128 - acc as i128) as i64)
    } else if acc > 9223372036854775807u128 {
        None
    } else {
        Some(acc as i64)
    }
}

/// The integer written in `buf[start..end]`.
fn parse_decimal(buf: &[u8], start: usize, end: usize) -> (r: Result<i64, ParseError>)
    requires
        start <= end <= buf@.len(),
    ensures
        r == decimal_spec(buf@.subrange(start as int, end as int)),
{
    let bytes = &buf[start..end];
    match utf8_str(bytes) {
        None => Err(ParseError::Invalid("non-utf8 integer")),
        Some(_) => match parse_i64_bytes(bytes) {
            Some(v) => Ok(v),
            None => Err(ParseError::Invalid("bad integer")),
        },
    }
}

/// Parses the RESP value at the start of `buf`, returning it with the number
/// of bytes it takes.
pub fn parse(buf: &[u8]) -> (r: Result<(RespValue, usize), ParseError>)
    ensures
        match r {
            Ok((v, c)) => spec_parse(buf@) == Ok::<(SpecResp, int), ParseError>(
                (resp_view(v), c as int),
            ),
            Err(e) => spec_parse(buf@) == Err::<(SpecResp, int), ParseError>(e),
        },
        r matches Ok((_, c)) ==> 0 < c <= buf@.len(),
    decreases buf@.len(), 1int,
{
    if buf.len() == 0 {
        return Err(ParseError::Incomplete);
    }
    let t = buf[0];
    if t == 43 {
        parse_simple_string(buf)
    } else if t == 45 {
        parse_error(buf)
    } else if t == 58 {
        parse_integer(buf)
    } else if t == 36 {
        parse_bulk_string(buf)
    } else if t == 42 {
        parse_array(buf)
    } else {
        Err(ParseError::Invalid("unknown type byte"))
    }
}

fn parse_simple_string(buf: &[u8]) -> (r: Result<(RespValue, usize), ParseError>)
    requires
        buf@.len() > 0,
        buf@[0] == 43,
    ensures
        match r {
            Ok((v, c)) => spec_parse(buf@) == Ok::<(SpecResp, int), ParseError>(
                (resp_view(v), c as int),
            ),
            Err(e) => spec_parse(buf@) == Err::<(SpecResp, int), ParseError>(e),
        },
        r matches Ok((_, c)) ==> 0 < c <= buf@.len(),
{
    let _n = buf.len();
    proof {
        lemma_crlf_bounds(buf@, 1);
    }
    match find_crlf(buf, 1) {
        None => Err(ParseError::Incomplete),
        Some(end) => {
            assert(end + 1 < buf@.len());
            Ok((RespValue::SimpleString(&buf[1..end]), end + 2))
        },
    }
}

fn parse_error(buf: &[u8]) -> (r: Result<(RespValue, usize), ParseError>)
    requires
        buf@.len() > 0,
        buf@[0] == 45,
    ensures
        match r {
            Ok((v, c)) => spec_parse(buf@) == Ok::<(SpecResp, int), ParseError>(
                (resp_view(v), c as int),
            ),
            Err(e) => spec_parse(buf@) == Err::<(SpecResp, int), ParseError>(e),
        },
        r matches Ok((_, c)) ==> 0 < c <= buf@.len(),
{
    let _n = buf.len();
    proof {
        lemma_crlf_bounds(buf@, 1);
    }
    match find_crlf(buf, 1) {
        None => Err(ParseError::Incomplete),
        Some(end) => {
            assert(end + 1 < buf@.len());
            Ok((RespValue::Error(&buf[1..end]), end + 2))
        },
    }
}

fn parse_integer(buf: &[u8]) -> (r: Result<(RespValue, usize), ParseError>)
    requires
        buf@.len() > 0,
        buf@[0] == 58,
    ensures
        match r {
            Ok((v, c)) => spec_parse(buf@) == Ok::<(SpecResp, int), ParseError>(
                (resp_view(v), c as int),
            ),
            Err(e) => spec_parse(buf@) == Err::<(SpecResp, int), ParseError>(e),
        },
        r matches Ok((_, c)) ==> 0 < c <= buf@.len(),
{
    let _n = buf.len();
    proof {
        lemma_crlf_bounds(buf@, 1);
    }
    match find_crlf(buf, 1) {
        None => Err(ParseError::Incomplete),
        Some(end) => match {
            assert(end + 1 < buf@.len());
            parse_decimal(buf, 1, end)
        } {
            Err(e) => Err(e),
            Ok(n) => Ok((RespValue::Integer(n), end + 2)),
        },
    }
}

fn parse_bulk_string(buf: &[u8]) -> (r: Result<(RespValue, usize), ParseError>)
    requires
        buf@.len() > 0,
        buf@[0] == 36,
    ensures
        match r {
            Ok((v, c)) => spec_parse(buf@) == Ok::<(SpecResp, int), ParseError>(
                (resp_view(v), c as int),
            ),
            Err(e) => spec_parse(buf@) == Err::<(SpecResp, int), ParseError>(e),
        },
        r matches Ok((_, c)) ==> 0 < c <= buf@.len(),
{
    let _n = buf.len();
    proof {
        lemma_crlf_bounds(buf@, 1);
    }
    let len_end = match find_crlf(buf, 1) {
        None => {
            return Err(ParseError::Incomplete);
        },
        Some(e) => e,
    };
    assert(len_end + 1 < buf@.len());
    let len = match parse_decimal(buf, 1, len_end) {
        Err(e) => {
            return Err(e);
        },
        Ok(n) => n,
    };
    if len == -1 {
        return Ok((RespValue::Null, len_end + 2));
    }
    if len < 0 {
        return Err(ParseError::Invalid("negetive bulk length"));
    }
    let data_start = len_end + 2;
    if (buf.len() as u128) < (data_start as u128) + (len as u128) + 2 {
        return Err(ParseError::Incomplete);
    }
    let data_end = data_start + len as usize;
    Ok((RespValue::BulkString(&buf[data_start..data_end]), data_end + 2))
}

fn parse_array(buf: &[u8]) -> (r: Result<(RespValue, usize), ParseError>)
    requires
        buf@.len() > 0,
        buf@[0] == 42,
    ensures
        match r {
            Ok((v, c)) => spec_parse(buf@) == Ok::<(SpecResp, int), ParseError>(
                (resp_view(v), c as int),
            ),
            Err(e) => spec_parse(buf@) == Err::<(SpecResp, int), ParseError>(e),
        },
        r matches Ok((_, c)) ==> 0 < c <= buf@.len(),
    decreases buf@.len(), 0int,
{
    let _n = buf.len();
    proof {
        lemma_crlf_bounds(buf@, 1);
    }
    let len_end = match find_crlf(buf, 1) {
        None => {
            return Err(ParseError::Incomplete);
        },
        Some(e) => e,
    };
    assert(len_end + 1 < buf@.len());
    let len = match parse_decimal(buf, 1, len_end) {
        Err(e) => {
            return Err(e);
        },
        Ok(n) => n,
    };
    if len == -1 {
        return Ok((RespValue::Null, len_end + 2));
    }
    if len < 0 {
        return Err(ParseError::Invalid("negetive bulk length"));
    }
    let ghost s = buf@;
    let ghost first = len_end + 2;
    let mut offset = len_end + 2;
    let mut items: Vec<RespValue> = Vec::new();
    let mut count: i64 = 0;
    while count < len
        invariant
            s == buf@,
            s.len() > 0,
            s[0] == 42,
            crlf_from(s, 1) == Some(len_end as int),
            decimal_spec(s.subrange(1, len_end as int)) == Ok::<i64, ParseError>(len),
            first == len_end + 2,
            len >= 0,
            0 <= count <= len,
            first <= offset <= s.len(),
            spec_parse_items(s, first as int, len as nat) == prepend_items(
                resp_seq_view(items@),
                spec_parse_items(s, offset as int, (len - count) as nat),
            ),
        decreases len - count,
    {
        match parse(&buf[offset..buf.len()]) {
            Err(e) => {
                proof {
                    assert(buf@.subrange(offset as int, buf@.len() as int) == s.subrange(
                        offset as int,
                        s.len() as int,
                    ));
                    assert(spec_parse_items(s, offset as int, (len - count) as nat) == Err::<
                        (Seq<SpecResp>, int),
                        ParseError,
                    >(e));
                }
                return Err(e);
            },
            Ok((val, consumed)) => {
                proof {
                    let rest = spec_parse_items(s, offset + consumed, (len - count - 1) as nat);
                    assert(items@.push(val).drop_last() =~= items@);
                    match rest {
                        Ok((vs, o)) => {
                            assert(resp_seq_view(items@) + (seq![resp_view(val)] + vs)
                                =~= resp_seq_view(items@.push(val)) + vs);
                        },
                        Err(_) => {},
                    }
                }
                items.push(val);
                offset = offset + consumed;
            },
        }
        count = count + 1;
    }
    assert(resp_seq_view(items@) + Seq::<SpecResp>::empty() =~= resp_seq_view(items@));
    Ok((RespValue::Array(items), offset))
}

} // verus!
