use vstd::prelude::*;

verus! {

/// The decimal digits of `n`, most significant first.
pub open spec fn dec_nat(n: nat) -> Seq<u8>
    decreases n,
{
    if n < 10 {
        seq![(48 + n) as u8]
    } else {
        dec_nat(n / 10).push((48 + n % 10) as u8)
    }
}

/// The decimal form of `n`, with a leading `-` when it is negative.
pub open spec fn dec_int(n: int) -> Seq<u8> {
    if n < 0 {
        seq![45u8] + dec_nat((-n) as nat)
    } else {
        dec_nat(n as nat)
    }
}

/// The two bytes `\r\n`.
pub open spec fn crlf() -> Seq<u8> {
    seq![13u8, 10u8]
}

/// `+<s>\r\n`
pub open spec fn simple_string_frame(s: Seq<u8>) -> Seq<u8> {
    seq![43u8] + s + crlf()
}

/// `-<msg>\r\n`
pub open spec fn error_frame(msg: Seq<u8>) -> Seq<u8> {
    seq![45u8] + msg + crlf()
}

/// `$<len>\r\n<data>\r\n`
pub open spec fn bulk_frame(data: Seq<u8>) -> Seq<u8> {
    seq![36u8] + dec_nat(data.len()) + crlf() + data + crlf()
}

/// `:<n>\r\n`
pub open spec fn int_frame(n: int) -> Seq<u8> {
    seq![58u8] + dec_int(n) + crlf()
}

/// `$-1\r\n`
pub open spec fn null_frame() -> Seq<u8> {
    seq![36u8, 45u8, 49u8, 13u8, 10u8]
}

/// `*<len>\r\n`
pub open spec fn array_header_frame(len: nat) -> Seq<u8> {
    seq![42u8] + dec_nat(len) + crlf()
}

/// Appends the decimal digits of `n` to `out`.
pub fn push_decimal(out: &mut Vec<u8>, n: u128)
    ensures
        final(out)@ == old(out)@ + dec_nat(n as nat),
    decreases n,
{
    if n >= 10 {
        push_decimal(out, n / 10);
    }
    out.push(48 + (n % 10) as u8);
    proof {
        if n >= 10 {
            assert(old(out)@ + dec_nat(n as nat) =~= old(out)@ + dec_nat((n / 10) as nat) + seq![
                (48 + n % 10) as u8,
            ]);
        } else {
            assert(old(out)@ + dec_nat(n as nat) =~= old(out)@ + seq![(48 + n) as u8]);
        }
    }
}

/// Appends the decimal form of `n` to `out`.
pub fn push_int(out: &mut Vec<u8>, n: i64)
    ensures
        final(out)@ == old(out)@ + dec_int(n as int),
{
    if n < 0 {
        out.push(45);
        let mag = (0i128 - n as i128) as u64;
        push_decimal(out, mag as u128);
        assert(old(out)@ + dec_int(n as int) =~= old(out)@.push(45u8) + dec_nat(mag as nat));
    } else {
        push_decimal(out, n as u128);
    }
}

/// Appends the bytes of `s` to `out`.
pub fn push_bytes(out: &mut Vec<u8>, s: &[u8])
    ensures
        final(out)@ == old(out)@ + s@,
{
    let n = s.len();
    let mut i: usize = 0;
    while i < n
        invariant
            n == s@.len(),
            i <= n,
            out@ == old(out)@ + s@.take(i as int),
        decreases n - i,
    {
        out.push(s[i]);
        i = i + 1;
        assert(out@ =~= old(out)@ + s@.take(i as int));
    }
    assert(s@.take(n as int) =~= s@);
}

/// Appends `\r\n` to `out`.
pub fn push_crlf(out: &mut Vec<u8>)
    ensures
        final(out)@ == old(out)@ + crlf(),
{
    out.push(13);
    out.push(10);
    assert(final(out)@ =~= old(out)@ + crlf());
}

/// The frame of a simple string.
pub fn encode_simple_string(s: &[u8]) -> (r: Vec<u8>)
    ensures
        r@ == simple_string_frame(s@),
{
    let mut r = Vec::new();
    r.push(43);
    push_bytes(&mut r, s);
    push_crlf(&mut r);
    assert(r@ =~= simple_string_frame(s@));
    r
}

/// The frame of an error message.
pub fn encode_error(msg: &[u8]) -> (r: Vec<u8>)
    ensures
        r@ == error_frame(msg@),
{
    let mut r = Vec::new();
    r.push(45);
    push_bytes(&mut r, msg);
    push_crlf(&mut r);
    assert(r@ =~= error_frame(msg@));
    r
}

/// The frame of a bulk string.
pub fn encode_bulk_string(data: &[u8]) -> (r: Vec<u8>)
    ensures
        r@ == bulk_frame(data@),
{
    let mut r = Vec::new();
    r.push(36);
    push_decimal(&mut r, data.len() as u128);
    push_crlf(&mut r);
    push_bytes(&mut r, data);
    push_crlf(&mut r);
    assert(r@ =~= bulk_frame(data@));
    r
}

/// The frame of an integer.
pub fn encode_int(n: i64) -> (r: Vec<u8>)
    ensures
        r@ == int_frame(n as int),
{
    let mut r = Vec::new();
    r.push(58);
    push_int(&mut r, n);
    push_crlf(&mut r);
    assert(r@ =~= int_frame(n as int));
    r
}

/// The frame of a null bulk string.
pub fn encode_null() -> (r: Vec<u8>)
    ensures
        r@ == null_frame(),
{
    let mut r = Vec::new();
    r.push(36);
    r.push(45);
    r.push(49);
    r.push(13);
    r.push(10);
    assert(r@ =~= null_frame());
    r
}

/// The header of an array of `len` values.
pub fn encode_array_header(len: usize) -> (r: Vec<u8>)
    ensures
        r@ == array_header_frame(len as nat),
{
    let mut r = Vec::new();
    r.push(42);
    push_decimal(&mut r, len as u128);
    push_crlf(&mut r);
    assert(r@ =~= array_header_frame(len as nat));
    r
}

/// The integer reply of a count.
pub fn encode_count(n: usize) -> (r: Vec<u8>)
    ensures
        r@ == int_frame(n as int),
{
    let mut r: Vec<u8> = Vec::new();
    r.push(58);
    push_decimal(&mut r, n as u128);
    push_crlf(&mut r);
    assert(r@ =~= int_frame(n as int));
    r
}

} // verus!
