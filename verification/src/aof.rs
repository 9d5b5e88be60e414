use vstd::prelude::*;
use std::sync::mpsc::Sender;
use crate::store::sharded::ShardedStore;
use crate::commands::handlers::{name_set, name_del, bytes_eq, concat_bulks};
use crate::protocol::writer::{array_header_frame, bulk_frame, dec_nat, crlf};
use crate::protocol::roundtrip::lemma_dec_nat;
use crate::protocol::resp::{is_digit, parse_i64_spec, parse_i64_bytes};

verus! {

broadcast use {
    vstd::string::to_string_from_display_ensures_for_str,
    vstd::string::axiom_spec_iter,
    vstd::string::next_postcondition,
};

/// The records handed to `Sender::send` through a sender, in order, each with
/// whether `send` took it (the writing thread was still there).
pub uninterp spec fn record_sends(tx: Sender<Vec<u8>>) -> Seq<(Seq<u8>, bool)>;

/// Hands `record` to the receiver of `tx`, through `Sender::send`, and
/// returns whether it was taken. Trusted: the sender's record of sends gains
/// `record` with that flag; whether the writing thread is still there to take
/// it is up to the other side of the channel, so the flag itself is left open.
#[verifier::external_body]
fn send_record(tx: &mut Sender<Vec<u8>>, record: Vec<u8>) -> (ok: bool)
    ensures
        record_sends(*final(tx)) == record_sends(*old(tx)).push((record@, ok)),
{
    tx.send(record).is_ok()
}

/// The UTF-8 bytes of a string, as a vector.
fn utf8_bytes(s: &str) -> (r: Vec<u8>)
    ensures
        r@ == vstd::utf8::encode_utf8(s@),
{
    let b = s.as_bytes();
    let mut r: Vec<u8> = Vec::new();
    let n = b.len();
    let mut i: usize = 0;
    while i < n
        invariant
            n == b@.len(),
            i <= n,
            r@ == b@.take(i as int),
        decreases n - i,
    {
        r.push(b[i]);
        i = i + 1;
        assert(r@ =~= b@.take(i as int));
    }
    assert(b@.take(n as int) =~= b@);
    r
}

/// The writing side of an append-only log: records handed to it are appended
/// to the log file by the thread that holds the receiving side.
pub struct Aof {
    sender: Sender<Vec<u8>>,
}

impl Aof {
    /// A log whose records go to the receiver of `sender`.
    pub fn from_sender(sender: Sender<Vec<u8>>) -> (a: Self)
        ensures
            a.sender() == sender,
    {
        Aof { sender }
    }

    /// The channel the records go to.
    pub closed spec fn sender(&self) -> Sender<Vec<u8>> {
        self.sender
    }

    /// Hands the UTF-8 bytes of `command` to the writing thread through
    /// `Sender::send`, to be appended to the log; returns whether the thread
    /// was still there to take them.
    pub fn log_command(&mut self, command: &str) -> (delivered: bool)
        ensures
            record_sends(final(self).sender()) == record_sends(old(self).sender()).push(
                (vstd::utf8::encode_utf8(command@), delivered),
            ),
    {
        let record = utf8_bytes(command);
        send_record(&mut self.sender, record)
    }
}

/// Whether `c` has the Unicode `White_Space` property: U+0009 to U+000D,
/// U+0020, U+0085, U+00A0, U+1680, U+2000 to U+200A, U+2028, U+2029, U+202F,
/// U+205F and U+3000.
pub open spec fn is_white_space(c: char) -> bool {
    let u = c as u32;
    ||| 0x09 <= u <= 0x0d
    ||| u == 0x20
    ||| u == 0x85
    ||| u == 0xa0
    ||| u == 0x1680
    ||| 0x2000 <= u <= 0x200a
    ||| u == 0x2028
    ||| u == 0x2029
    ||| u == 0x202f
    ||| u == 0x205f
    ||| u == 0x3000
}

/// The number of white-space characters at the start of `s`.
pub open spec fn leading_ws(s: Seq<char>) -> nat
    decreases s.len(),
{
    if s.len() > 0 && is_white_space(s[0]) {
        1 + leading_ws(s.drop_first())
    } else {
        0
    }
}

/// The number of white-space characters at the end of `s`.
pub open spec fn trailing_ws(s: Seq<char>) -> nat
    decreases s.len(),
{
    if s.len() > 0 && is_white_space(s.last()) {
        1 + trailing_ws(s.drop_last())
    } else {
        0
    }
}

/// `s` without its leading and trailing white space.
pub open spec fn trimmed(s: Seq<char>) -> Seq<char> {
    if leading_ws(s) == s.len() {
        Seq::empty()
    } else {
        s.subrange(leading_ws(s) as int, s.len() - trailing_ws(s))
    }
}

/// Removes leading and trailing white space, through `str::trim`. Trusted:
/// the result is stated as `trimmed`, with white space as the documentation
/// of `str::trim` defines it, the Unicode `White_Space` property.
#[verifier::external_body]
fn str_trim(s: &str) -> (r: &str)
    ensures
        r@ == trimmed(s@),
{
    s.trim()
}

/// What `str::to_uppercase` gives for a string.
pub uninterp spec fn uppercased(s: Seq<char>) -> Seq<char>;

/// Whether every character of `s` is ASCII.
pub open spec fn ascii_chars(s: Seq<char>) -> bool {
    forall|i: int| 0 <= i < s.len() ==> (#[trigger] s[i] as u32) < 0x80
}

/// The ASCII upper-case form of a character.
pub open spec fn upper_char(c: char) -> char {
    if 'a' <= c <= 'z' {
        ((c as u32) - 32) as char
    } else {
        c
    }
}

/// The upper-case form of a string, through `str::to_uppercase`. Trusted: the
/// result is named as a function of the string alone; of the Unicode case
/// mapping only its ASCII part is stated: ASCII letters `a` to `z` become `A`
/// to `Z` and other ASCII characters stay as they are.
#[verifier::external_body]
fn str_to_uppercase(s: &str) -> (r: String)
    ensures
        r@ == uppercased(s@),
        ascii_chars(s@) ==> r@ == s@.map_values(|c: char| upper_char(c)),
{
    s.to_uppercase()
}

/// The upper-case form of a string: the ASCII one for ASCII strings, else
/// what `str::to_uppercase` gives.
pub open spec fn upper_form(s: Seq<char>) -> Seq<char> {
    if ascii_chars(s) {
        s.map_values(|c: char| upper_char(c))
    } else {
        uppercased(s)
    }
}

/// The position of the first `\n` in `b` at or after `i`, or the length of
/// `b` when there is none.
pub open spec fn next_newline(b: Seq<u8>, i: int) -> int
    decreases b.len() - i,
{
    if i >= b.len() {
        b.len() as int
    } else if b[i] == 10 {
        i
    } else {
        next_newline(b, i + 1)
    }
}

/// The bytes of the line that starts at `i` and ends at `e`: without the
/// `\r` of a `\r\n` ending.
pub open spec fn line_bytes(b: Seq<u8>, i: int, e: int) -> Seq<u8> {
    if e < b.len() && e > i && b[e - 1] == 13 {
        b.subrange(i, e - 1)
    } else {
        b.subrange(i, e)
    }
}

/// The lines of `b` from position `i` on, as `BufRead::lines` reads them
/// (each line ends at `\n` or `\r\n`, and a last line without either ends at
/// the end), keeping the lines that are valid UTF-8.
pub open spec fn lines_from(b: Seq<u8>, i: int) -> Seq<Seq<char>>
    decreases b.len() - i,
{
    if i < 0 || i >= b.len() {
        Seq::empty()
    } else {
        let e = next_newline(b, i);
        let line = line_bytes(b, i, e);
        let rest = if e < b.len() {
            proof {
                lemma_next_newline(b, i);
            }
            lines_from(b, e + 1)
        } else {
            Seq::empty()
        };
        if vstd::utf8::valid_utf8(line) {
            seq![vstd::utf8::decode_utf8(line)] + rest
        } else {
            rest
        }
    }
}

/// Where `next_newline` lands, and that no `\n` comes before it.
pub proof fn lemma_next_newline(b: Seq<u8>, i: int)
    requires
        0 <= i <= b.len(),
    ensures
        i <= next_newline(b, i) <= b.len(),
        next_newline(b, i) < b.len() ==> b[next_newline(b, i)] == 10,
        forall|j: int| i <= j < next_newline(b, i) ==> b[j] != 10,
    decreases b.len() - i,
{
    if i < b.len() && b[i] != 10 {
        lemma_next_newline(b, i + 1);
    }
}

/// Splits `bytes` into lines as `BufRead::lines` does, dropping the lines that
/// are not valid UTF-8.
pub fn split_lines(bytes: &[u8]) -> (r: Vec<String>)
    ensures
        lines_view(r@) == lines_from(bytes@, 0),
{
    let n = bytes.len();
    let mut r: Vec<String> = Vec::new();
    let mut i: usize = 0;
    while i < n
        invariant
            n == bytes@.len(),
            i <= n,
            lines_view(r@) + lines_from(bytes@, i as int) == lines_from(bytes@, 0),
        decreases n - i,
    {
        let mut e = i;
        while e < n && bytes[e] != 10
            invariant
                i <= e <= n,
                n == bytes@.len(),
                next_newline(bytes@, i as int) == next_newline(bytes@, e as int),
            decreases n - e,
        {
            e = e + 1;
        }
        proof {
            lemma_next_newline(bytes@, i as int);
        }
        let end = if e < n && e > i && bytes[e - 1] == 13 {
            e - 1
        } else {
            e
        };
        let line = &bytes[i..end];
        assert(line@ == line_bytes(bytes@, i as int, e as int));
        let ghost before = r@;
        match crate::text::utf8_str(line) {
            Some(t) => {
                r.push(t.to_string());
                proof {
                    assert(lines_view(r@) =~= lines_view(before).push(vstd::utf8::decode_utf8(line@)));
                }
            },
            None => {},
        }
        if e < n {
            i = e + 1;
        } else {
            i = n;
        }
        proof {
            assert(lines_view(r@) + lines_from(bytes@, i as int) =~= lines_from(bytes@, 0));
        }
    }
    r
}

/// Line `i`, or the empty line past the end.
pub open spec fn line_at(lines: Seq<Seq<char>>, i: int) -> Seq<char> {
    if 0 <= i < lines.len() {
        lines[i]
    } else {
        Seq::empty()
    }
}

/// Whether a line opens a logged command (`*<n>`).
pub open spec fn opens_command(s: Seq<char>) -> bool {
    s.len() > 0 && s[0] == '*'
}

/// The name of the command whose header is line `i`: line `i + 2`, trimmed
/// and in upper case, as UTF-8 bytes.
pub open spec fn command_name_at(lines: Seq<Seq<char>>, i: int) -> Seq<u8> {
    vstd::utf8::encode_utf8(upper_form(trimmed(line_at(lines, i + 2))))
}

/// How many bulk strings the header `*<n>` of a `DEL` record announces: `n`
/// when it is a number of at least 2, else 2, as for a `DEL` of one key.
pub open spec fn del_arity(header: Seq<char>) -> int {
    let b = vstd::utf8::encode_utf8(header);
    match parse_i64_spec(b.subrange(1, b.len() as int)) {
        Some(n) => if n >= 2 {
            n as int
        } else {
            2
        },
        None => 2,
    }
}

/// Whether a run of key lines ends before line `p`: the log holds no line
/// `p`, or line `p - 1`, where the length of key `p` belongs, opens the next
/// command, so that the record announced more keys than it holds.
pub open spec fn key_run_stops(lines: Seq<Seq<char>>, p: int) -> bool {
    p < 1 || p >= lines.len() || opens_command(trimmed(lines[p - 1]))
}

/// The store after removing the keys on lines `p`, `p + 2`, ..., at most
/// `count` of them, each trimmed, up to where the run of key lines stops.
pub open spec fn remove_key_lines(
    lines: Seq<Seq<char>>,
    p: int,
    count: int,
    st: Map<Seq<char>, Seq<char>>,
) -> Map<Seq<char>, Seq<char>>
    decreases count,
{
    if count <= 0 || key_run_stops(lines, p) {
        st
    } else {
        remove_key_lines(lines, p + 2, count - 1, st.remove(trimmed(lines[p])))
    }
}

/// How many of the at most `count` key lines `p`, `p + 2`, ... come before
/// the run stops.
pub open spec fn keys_taken(lines: Seq<Seq<char>>, p: int, count: int) -> nat
    decreases count,
{
    if count <= 0 || key_run_stops(lines, p) {
        0
    } else {
        1 + keys_taken(lines, p + 2, count - 1)
    }
}

/// The store after replaying the log lines from line `i` on: a `SET` sets the
/// key of line `i + 4` to the value of line `i + 6`; a `DEL` whose header
/// announces `n` bulk strings removes the keys of lines `i + 4`, `i + 6`, ...,
/// `i + 2n`, stopping early where the next command opens, and replay goes on
/// after the last key it took; other lines are passed over.
pub open spec fn replay_from(lines: Seq<Seq<char>>, i: int, st: Map<Seq<char>, Seq<char>>) -> Map<
    Seq<char>,
    Seq<char>,
>
    decreases lines.len() + 7 - i,
{
    if i < 0 || i >= lines.len() {
        st
    } else if opens_command(trimmed(lines[i])) {
        if command_name_at(lines, i) == name_set() {
            replay_from(
                lines,
                i + 7,
                st.insert(trimmed(line_at(lines, i + 4)), trimmed(line_at(lines, i + 6))),
            )
        } else if command_name_at(lines, i) == name_del() {
            let n = del_arity(trimmed(lines[i]));
            let next = if i + 3 + 2 * keys_taken(lines, i + 4, n - 1) > lines.len() {
                lines.len() as int
            } else {
                i + 3 + 2 * keys_taken(lines, i + 4, n - 1)
            };
            replay_from(lines, next, remove_key_lines(lines, i + 4, n - 1, st))
        } else {
            replay_from(lines, i + 3, st)
        }
    } else {
        replay_from(lines, i + 1, st)
    }
}

/// The views of a sequence of strings.
pub open spec fn lines_view(lines: Seq<String>) -> Seq<Seq<char>> {
    lines.map_values(|l: String| l@)
}

/// Line `i + off` trimmed, or the empty string past the end.
fn trimmed_line(lines: &Vec<String>, i: usize, off: usize) -> (r: String)
    requires
        i <= lines@.len(),
    ensures
        r@ == trimmed(line_at(lines_view(lines@), i + off)),
{
    if off < lines.len() - i {
        str_trim(lines[i + off].as_str()).to_string()
    } else {
        let empty = String::new();
        str_trim(empty.as_str()).to_string()
    }
}

/// Whether line `j`, trimmed, opens a logged command.
fn line_opens_command(lines: &Vec<String>, j: usize) -> (b: bool)
    requires
        j < lines@.len(),
    ensures
        b == opens_command(trimmed(lines_view(lines@)[j as int])),
{
    let clean = str_trim(lines[j].as_str());
    let mut chars = clean.chars();
    let first = chars.next();
    match first {
        Some(c) => c == '*',
        None => false,
    }
}

/// Replays the lines of an append-only log into the store.
pub fn replay_aof(lines: &Vec<String>, store: &mut ShardedStore)
    requires
        old(store).wf(),
        old(store).size() + lines@.len() < usize::MAX / 4,
    ensures
        final(store).wf(),
        final(store)@ == replay_from(lines_view(lines@), 0, old(store)@),
{
    let ghost ls = lines_view(lines@);
    let n = lines.len();
    let mut i: usize = 0;
    while i < n
        invariant
            n == lines@.len(),
            ls == lines_view(lines@),
            ls.len() == n,
            store.wf(),
            store.size() + n - i < usize::MAX / 4,
            replay_from(ls, i as int, store@) == replay_from(ls, 0, old(store)@),
        decreases n - i,
    {
        let star = line_opens_command(lines, i);
        if star {
            let cmd = str_to_uppercase(trimmed_line(lines, i, 2).as_str());
            let cmd_bytes = cmd.as_str().as_bytes();
            proof {
                assert(cmd_bytes@ == command_name_at(ls, i as int));
            }
            if bytes_eq(cmd_bytes, [83u8, 69, 84].as_slice()) {
                let key = trimmed_line(lines, i, 4);
                let value = trimmed_line(lines, i, 6);
                let ghost st0 = store@;
                assert(command_name_at(ls, i as int) == name_set());
                assert(replay_from(ls, i as int, st0) == replay_from(ls, i + 7, st0.insert(key@, value@)));
                store.insert(key, value);
                let ghost i0 = i;
                i = if n - i < 7 {
                    n
                } else {
                    i + 7
                };
                assert(replay_from(ls, i0 + 7, store@) == replay_from(ls, i as int, store@));
            } else if bytes_eq(cmd_bytes, [68u8, 69, 76].as_slice()) {
                let clean = str_trim(lines[i].as_str());
                proof {
                    assert(ls[i as int] == lines@[i as int]@);
                }
                let hb = clean.as_bytes();
                let digits = &hb[1..hb.len()];
                let announced = parse_i64_bytes(digits);
                let count: i64 = match announced {
                    Some(v) => if v >= 2 {
                        v
                    } else {
                        2
                    },
                    None => 2,
                };
                proof {
                    assert(hb@.subrange(1, hb@.len() as int) == digits@);
                    assert(count == del_arity(trimmed(ls[i as int])));
                }
                let ghost st0 = store@;
                let ghost i0 = i;
                let mut p: usize = if n - i < 4 {
                    n
                } else {
                    i + 4
                };
                let mut left: i64 = count - 1;
                let mut k: usize = 0;
                while left > 0 && p < n && !line_opens_command(lines, p - 1)
                    invariant
                        n == lines@.len(),
                        ls == lines_view(lines@),
                        ls.len() == n,
                        i0 < n,
                        p <= n,
                        left >= 0,
                        k <= n,
                        p == i0 + 4 + 2 * k || (p == n && i0 + 4 + 2 * k >= n),
                        store.wf(),
                        store.size() + n - i0 < usize::MAX / 4,
                        remove_key_lines(ls, p as int, left as int, store@) == remove_key_lines(
                            ls,
                            i0 + 4,
                            count - 1,
                            st0,
                        ),
                        keys_taken(ls, p as int, left as int) + k == keys_taken(
                            ls,
                            i0 + 4,
                            count - 1,
                        ),
                    decreases left,
                {
                    let key = str_trim(lines[p].as_str());
                    proof {
                        assert(ls[p as int] == lines@[p as int]@);
                    }
                    let ghost before = store@;
                    store.remove(key);
                    left = left - 1;
                    k = k + 1;
                    let ghost p0 = p;
                    p = if n - p <= 2 {
                        n
                    } else {
                        p + 2
                    };
                    proof {
                        assert(remove_key_lines(ls, p0 as int, left + 1, before) == remove_key_lines(
                            ls,
                            p0 + 2,
                            left as int,
                            store@,
                        ));
                        assert(keys_taken(ls, p0 as int, left + 1) == 1 + keys_taken(
                            ls,
                            p0 + 2,
                            left as int,
                        ));
                        if p == n {
                            assert(key_run_stops(ls, p as int));
                            assert(key_run_stops(ls, p0 + 2));
                        }
                    }
                }
                proof {
                    if left > 0 && p < n {
                        assert(key_run_stops(ls, p as int));
                    }
                }
                assert(remove_key_lines(ls, p as int, left as int, store@) == store@);
                assert(keys_taken(ls, p as int, left as int) == 0);
                let ghost next: int = if i + 3 + 2 * k > n {
                    n as int
                } else {
                    i + 3 + 2 * k
                };
                assert(replay_from(ls, i as int, st0) == replay_from(ls, next, store@));
                i = if ((n - i) as u128) < 3 + 2 * (k as u128) {
                    n
                } else {
                    i + 3 + 2 * k
                };
            } else {
                assert(replay_from(ls, i as int, store@) == replay_from(ls, i + 3, store@));
                i = if n - i < 3 {
                    n
                } else {
                    i + 3
                };
            }
        } else {
            i = i + 1;
        }
    }
}

/// Each line followed by `\r\n`.
pub open spec fn crlf_lines(ls: Seq<Seq<u8>>) -> Seq<u8>
    decreases ls.len(),
{
    if ls.len() == 0 {
        Seq::empty()
    } else {
        ls[0] + seq![13u8, 10u8] + crlf_lines(ls.drop_first())
    }
}

/// Whether `x` holds no `\n` byte.
pub open spec fn no_newline(x: Seq<u8>) -> bool {
    forall|j: int| 0 <= j < x.len() ==> x[j] != 10
}

proof fn lemma_newline_at(b: Seq<u8>, i: int, p: int)
    requires
        0 <= i <= p < b.len(),
        b[p] == 10,
        forall|j: int| i <= j < p ==> b[j] != 10,
    ensures
        next_newline(b, i) == p,
    decreases p - i,
{
    if i < p {
        lemma_newline_at(b, i + 1, p);
    }
}

proof fn lemma_next_newline_shift(p: Seq<u8>, y: Seq<u8>, j: int)
    requires
        0 <= j <= y.len(),
    ensures
        next_newline(p + y, p.len() + j) == p.len() + next_newline(y, j),
    decreases y.len() - j,
{
    if j < y.len() {
        assert((p + y)[p.len() + j] == y[j]);
        if y[j] != 10 {
            lemma_next_newline_shift(p, y, j + 1);
        }
    }
}

/// The lines after a prefix are the lines of what follows it.
proof fn lemma_lines_shift(p: Seq<u8>, y: Seq<u8>, j: int)
    requires
        0 <= j <= y.len(),
    ensures
        lines_from(p + y, p.len() + j) == lines_from(y, j),
    decreases y.len() - j,
{
    if j < y.len() {
        lemma_next_newline_shift(p, y, j);
        lemma_next_newline(y, j);
        let e = next_newline(y, j);
        if e > j {
            assert((p + y)[p.len() + e - 1] == y[e - 1]);
        }
        assert(line_bytes(p + y, p.len() + j, p.len() + e) =~= line_bytes(y, j, e));
        if e < y.len() {
            lemma_lines_shift(p, y, e + 1);
        }
    }
}

/// A line without `\n`, ended by `\r\n`, is read back as itself.
proof fn lemma_line_crlf(x: Seq<u8>, y: Seq<u8>)
    requires
        no_newline(x),
        vstd::utf8::valid_utf8(x),
    ensures
        lines_from(x + seq![13u8, 10u8] + y, 0) == seq![vstd::utf8::decode_utf8(x)] + lines_from(y, 0),
{
    let head = x + seq![13u8, 10u8];
    let b = head + y;
    assert(x + seq![13u8, 10u8] + y == b);
    let p = x.len() as int + 1;
    assert(b[p] == 10);
    assert(b[p - 1] == 13);
    assert forall|j: int| 0 <= j < p implies b[j] != 10 by {
        if j < x.len() {
            assert(b[j] == x[j]);
        }
    }
    lemma_newline_at(b, 0, p);
    assert(line_bytes(b, 0, p) =~= x);
    lemma_lines_shift(head, y, 0);
    assert(head.len() == p + 1);
}

/// Lines ended by `\r\n` are read back as themselves.
proof fn lemma_crlf_lines(ls: Seq<Seq<u8>>, y: Seq<u8>)
    requires
        forall|i: int|
            0 <= i < ls.len() ==> no_newline(#[trigger] ls[i]) && vstd::utf8::valid_utf8(ls[i]),
    ensures
        lines_from(crlf_lines(ls) + y, 0) == ls.map_values(|l: Seq<u8>| vstd::utf8::decode_utf8(l))
            + lines_from(y, 0),
    decreases ls.len(),
{
    if ls.len() == 0 {
        assert(crlf_lines(ls) + y =~= y);
        assert(ls.map_values(|l: Seq<u8>| vstd::utf8::decode_utf8(l)) =~= Seq::<Seq<char>>::empty());
    } else {
        let more = ls.drop_first();
        assert forall|i: int|
            0 <= i < more.len() implies no_newline(#[trigger] more[i]) && vstd::utf8::valid_utf8(
                more[i],
            ) by {
            assert(more[i] == ls[i + 1]);
        }
        lemma_crlf_lines(more, y);
        assert(no_newline(ls[0]) && vstd::utf8::valid_utf8(ls[0]));
        lemma_line_crlf(ls[0], crlf_lines(more) + y);
        assert(crlf_lines(ls) + y =~= ls[0] + seq![13u8, 10u8] + (crlf_lines(more) + y));
        assert(ls.map_values(|l: Seq<u8>| vstd::utf8::decode_utf8(l)) =~= seq![
            vstd::utf8::decode_utf8(ls[0]),
        ] + more.map_values(|l: Seq<u8>| vstd::utf8::decode_utf8(l)));
    }
}

/// ASCII bytes decode to the characters with the same codes.
proof fn lemma_ascii_decode(b: Seq<u8>)
    requires
        forall|i: int| 0 <= i < b.len() ==> (#[trigger] b[i]) < 0x80u8,
    ensures
        vstd::utf8::valid_utf8(b),
        vstd::utf8::decode_utf8(b).len() == b.len(),
        forall|i: int| 0 <= i < b.len() ==> (#[trigger] vstd::utf8::decode_utf8(b)[i]) as u32 == b[i] as u32,
    decreases b.len(),
{
    if b.len() > 0 {
        let b0 = b[0];
        assert(b0 < 0x80u8);
        assert((b0 & 0x7Fu8) == b0) by (bit_vector)
            requires
                b0 < 0x80u8,
        ;
        assert(vstd::utf8::is_leading_byte_width_1(b0));
        let rest = b.drop_first();
        assert(vstd::utf8::pop_first_scalar(b) =~= rest);
        assert forall|i: int| 0 <= i < rest.len() implies (#[trigger] rest[i]) < 0x80u8 by {
            assert(rest[i] == b[i + 1]);
        }
        lemma_ascii_decode(rest);
        let c = vstd::utf8::decode_first_scalar(b);
        assert(c == b0 as u32);
        let d = vstd::utf8::decode_utf8(b);
        assert(d == seq![c as char] + vstd::utf8::decode_utf8(rest));
        assert forall|i: int| 0 <= i < b.len() implies (#[trigger] vstd::utf8::decode_utf8(b)[i]) as u32
            == b[i] as u32 by {
            if i == 0 {
                assert(d[0] == c as char);
            } else {
                assert(d[i] == vstd::utf8::decode_utf8(rest)[i - 1]);
                assert(rest[i - 1] == b[i]);
            }
        }
    }
}

/// The UTF-8 form of text without a newline holds no `\n` byte.
proof fn lemma_encode_no_newline(cs: Seq<char>)
    requires
        forall|i: int| 0 <= i < cs.len() ==> (#[trigger] cs[i]) != '\n',
    ensures
        no_newline(vstd::utf8::encode_utf8(cs)),
    decreases cs.len(),
{
    if cs.len() > 0 {
        let rest = cs.drop_first();
        assert forall|i: int| 0 <= i < rest.len() implies (#[trigger] rest[i]) != '\n' by {
            assert(rest[i] == cs[i + 1]);
        }
        lemma_encode_no_newline(rest);
        let c = cs[0] as u32;
        assert(c != 10u32) by {
            if c == 10u32 {
                vstd::utf8::char_u32_cast(cs[0], c);
                vstd::utf8::char_u32_cast('\n', 10u32);
            }
        }
        let first = vstd::utf8::encode_scalar(c);
        assert(no_newline(first)) by {
            if vstd::utf8::has_width_1_encoding(c) {
                assert(((c & 0x7Fu32) as u8) != 10u8) by (bit_vector)
                    requires
                        c <= 0x7Fu32,
                        c != 10u32,
                ;
            } else {
                assert forall|x: u8| (#[trigger] (0xC0u8 | x)) != 10u8 by {
                    assert((0xC0u8 | x) != 10u8) by (bit_vector);
                }
                assert forall|x: u8| (#[trigger] (0xE0u8 | x)) != 10u8 by {
                    assert((0xE0u8 | x) != 10u8) by (bit_vector);
                }
                assert forall|x: u8| (#[trigger] (0xF0u8 | x)) != 10u8 by {
                    assert((0xF0u8 | x) != 10u8) by (bit_vector);
                }
                assert forall|x: u8| (#[trigger] (0x80u8 | x)) != 10u8 by {
                    assert((0x80u8 | x) != 10u8) by (bit_vector);
                }
            }
        }
        assert(vstd::utf8::encode_utf8(cs) == first + vstd::utf8::encode_utf8(rest));
        let all = first + vstd::utf8::encode_utf8(rest);
        assert forall|j: int| 0 <= j < all.len() implies all[j] != 10 by {
            if j < first.len() {
                assert(all[j] == first[j]);
            } else {
                assert(all[j] == vstd::utf8::encode_utf8(rest)[j - first.len()]);
            }
        }
    }
}

/// Line `m` of `p + r` past `p` is line `m - p.len()` of `r`.
proof fn lemma_line_at_shift(p: Seq<Seq<char>>, r: Seq<Seq<char>>, m: int)
    requires
        m >= 0,
    ensures
        line_at(p + r, p.len() + m) == line_at(r, m),
{
    if m < r.len() {
        assert((p + r)[p.len() + m] == r[m]);
    }
}

/// Removing key lines past a prefix is removing those of what follows it, and
/// as many are taken.
proof fn lemma_remove_key_lines_shift(
    p: Seq<Seq<char>>,
    r: Seq<Seq<char>>,
    q: int,
    count: int,
    st: Map<Seq<char>, Seq<char>>,
)
    requires
        q >= 1,
    ensures
        remove_key_lines(p + r, p.len() + q, count, st) == remove_key_lines(r, q, count, st),
        keys_taken(p + r, p.len() + q, count) == keys_taken(r, q, count),
    decreases count,
{
    if q < r.len() {
        assert((p + r)[p.len() + q - 1] == r[q - 1]);
    }
    if count > 0 && !key_run_stops(r, q) {
        assert((p + r)[p.len() + q] == r[q]);
        lemma_remove_key_lines_shift(p, r, q + 2, count - 1, st.remove(trimmed(r[q])));
    }
}

/// Replaying from a line past a prefix is replaying what follows the prefix.
proof fn lemma_replay_shift(p: Seq<Seq<char>>, r: Seq<Seq<char>>, j: int, st: Map<Seq<char>, Seq<char>>)
    requires
        j >= 0,
    ensures
        replay_from(p + r, p.len() + j, st) == replay_from(r, j, st),
    decreases r.len() + 7 - j,
{
    let l = p + r;
    let i = p.len() + j;
    if j < r.len() {
        assert(l[i] == r[j]);
        lemma_line_at_shift(p, r, j + 2);
        lemma_line_at_shift(p, r, j + 4);
        lemma_line_at_shift(p, r, j + 6);
        assert(command_name_at(l, i) == command_name_at(r, j));
        if opens_command(trimmed(r[j])) {
            if command_name_at(r, j) == name_set() {
                lemma_replay_shift(
                    p,
                    r,
                    j + 7,
                    st.insert(trimmed(line_at(r, j + 4)), trimmed(line_at(r, j + 6))),
                );
            } else if command_name_at(r, j) == name_del() {
                let n = del_arity(trimmed(r[j]));
                let next = if j + 3 + 2 * keys_taken(r, j + 4, n - 1) > r.len() {
                    r.len() as int
                } else {
                    j + 3 + 2 * keys_taken(r, j + 4, n - 1)
                };
                lemma_remove_key_lines_shift(p, r, j + 4, n - 1, st);
                lemma_replay_shift(p, r, next, remove_key_lines(r, j + 4, n - 1, st));
            } else {
                lemma_replay_shift(p, r, j + 3, st);
            }
        } else {
            lemma_replay_shift(p, r, j + 1, st);
        }
    }
}

/// Whether `s` can be written as one line of the log and read back as
/// itself: it holds no newline and neither starts nor ends with white space.
pub open spec fn log_safe(s: Seq<char>) -> bool {
    &&& forall|i: int| 0 <= i < s.len() ==> (#[trigger] s[i]) != '\n'
    &&& s.len() > 0 ==> !is_white_space(s[0]) && !is_white_space(s.last())
}

proof fn lemma_trim_safe(s: Seq<char>)
    requires
        s.len() > 0 ==> !is_white_space(s[0]) && !is_white_space(s.last()),
    ensures
        trimmed(s) == s,
{
    if s.len() > 0 {
        assert(leading_ws(s) == 0);
        assert(trailing_ws(s) == 0);
        assert(s.subrange(0, s.len() as int) =~= s);
    } else {
        assert(s =~= Seq::<char>::empty());
    }
}

/// Facts about an ASCII header line: it decodes to as many characters with
/// the same codes, trims to itself when its ends are not white space, and a
/// command name in capitals reads back as itself.
proof fn lemma_ascii_line(b: Seq<u8>)
    requires
        b.len() > 0,
        forall|i: int| 0 <= i < b.len() ==> 0x21u8 <= (#[trigger] b[i]) < 0x61u8,
    ensures
        ({
            let l = vstd::utf8::decode_utf8(b);
            &&& vstd::utf8::valid_utf8(b)
            &&& no_newline(b)
            &&& trimmed(l) == l
            &&& l.len() == b.len()
            &&& (l[0] as u32) == b[0] as u32
            &&& vstd::utf8::encode_utf8(upper_form(trimmed(l))) == b
        }),
{
    broadcast use vstd::utf8::decode_utf8_encode_utf8;

    assert forall|i: int| 0 <= i < b.len() implies (#[trigger] b[i]) < 0x80u8 by {
        assert(b[i] < 0x61u8);
    }
    lemma_ascii_decode(b);
    let l = vstd::utf8::decode_utf8(b);
    assert(l[0] as u32 == b[0] as u32);
    assert(l[l.len() - 1] as u32 == b[b.len() - 1] as u32);
    assert(0x21u8 <= b[b.len() - 1]);
    lemma_trim_safe(l);
    assert(ascii_chars(l)) by {
        assert forall|i: int| 0 <= i < l.len() implies (#[trigger] l[i] as u32) < 0x80 by {
            assert(l[i] as u32 == b[i] as u32);
            assert(b[i] < 0x61u8);
        }
    }
    assert(l.map_values(|c: char| upper_char(c)) =~= l) by {
        assert forall|i: int| 0 <= i < l.len() implies upper_char(l[i]) == l[i] by {
            assert(l[i] as u32 == b[i] as u32);
            assert(b[i] < 0x61u8);
        }
    }
    assert(no_newline(b)) by {
        assert forall|j: int| 0 <= j < b.len() implies b[j] != 10 by {
            assert(0x21u8 <= b[j]);
        }
    }
}

/// The lines of a frame length header `$<n>` or `*<n>`.
proof fn lemma_length_line(t: u8, n: nat)
    requires
        t == 36u8 || t == 42u8,
    ensures
        ({
            let b = seq![t] + dec_nat(n);
            &&& b.len() > 0
            &&& forall|i: int| 0 <= i < b.len() ==> 0x21u8 <= (#[trigger] b[i]) < 0x61u8
        }),
{
    lemma_dec_nat(n);
    let d = dec_nat(n);
    let b = seq![t] + d;
    assert forall|i: int| 0 <= i < b.len() implies 0x21u8 <= (#[trigger] b[i]) < 0x61u8 by {
        if i > 0 {
            assert(b[i] == d[i - 1]);
            assert(is_digit(d[i - 1]));
        }
    }
}

proof fn lemma_crlf_lines_cons(a: Seq<u8>, rest: Seq<Seq<u8>>)
    ensures
        crlf_lines(seq![a] + rest) == a + seq![13u8, 10u8] + crlf_lines(rest),
{
    let l = seq![a] + rest;
    assert(l.drop_first() =~= rest);
    assert(l[0] == a);
}

/// A frame `$<len>\r\n<data>\r\n` is the two lines `$<len>` and `<data>`.
proof fn lemma_bulk_lines(d: Seq<u8>, rest: Seq<Seq<u8>>)
    ensures
        bulk_frame(d) + crlf_lines(rest) == crlf_lines(seq![seq![36u8] + dec_nat(d.len()), d] + rest),
{
    let h = seq![36u8] + dec_nat(d.len());
    lemma_crlf_lines_cons(d, rest);
    lemma_crlf_lines_cons(h, seq![d] + rest);
    assert(seq![h] + (seq![d] + rest) =~= seq![h, d] + rest);
    assert(bulk_frame(d) + crlf_lines(rest) =~= h + seq![13u8, 10u8] + (d + seq![13u8, 10u8] + crlf_lines(rest)));
}

/// The lines of the record `SET` writes, and that replaying them sets the key.
pub proof fn lemma_set_record_replays(
    key: Seq<char>,
    value: Seq<char>,
    tail: Seq<u8>,
    st: Map<Seq<char>, Seq<char>>,
)
    requires
        log_safe(key),
        log_safe(value),
    ensures
        ({
            let kb = vstd::utf8::encode_utf8(key);
            let vb = vstd::utf8::encode_utf8(value);
            let rec = array_header_frame(3) + bulk_frame(name_set()) + bulk_frame(kb) + bulk_frame(vb);
            replay_from(lines_from(rec + tail, 0), 0, st) == replay_from(
                lines_from(tail, 0),
                0,
                st.insert(key, value),
            )
        }),
{
    broadcast use vstd::utf8::encode_utf8_valid_utf8, vstd::utf8::encode_utf8_decode_utf8;

    let kb = vstd::utf8::encode_utf8(key);
    let vb = vstd::utf8::encode_utf8(value);
    let h0 = seq![42u8] + dec_nat(3);
    let empty = Seq::<Seq<u8>>::empty();
    let bls = seq![
        h0,
        seq![36u8] + dec_nat(name_set().len()),
        name_set(),
        seq![36u8] + dec_nat(kb.len()),
        kb,
        seq![36u8] + dec_nat(vb.len()),
        vb,
    ];
    lemma_bulk_lines(vb, empty);
    lemma_bulk_lines(kb, seq![seq![36u8] + dec_nat(vb.len()), vb] + empty);
    lemma_bulk_lines(
        name_set(),
        seq![seq![36u8] + dec_nat(kb.len()), kb] + (seq![seq![36u8] + dec_nat(vb.len()), vb] + empty),
    );
    let after_h0 = seq![seq![36u8] + dec_nat(name_set().len()), name_set()] + (seq![
        seq![36u8] + dec_nat(kb.len()),
        kb,
    ] + (seq![seq![36u8] + dec_nat(vb.len()), vb] + empty));
    lemma_crlf_lines_cons(h0, after_h0);
    assert(seq![h0] + after_h0 =~= bls);
    let rec = array_header_frame(3) + bulk_frame(name_set()) + bulk_frame(kb) + bulk_frame(vb);
    assert(crlf_lines(empty) =~= Seq::<u8>::empty());
    assert(rec =~= crlf_lines(bls));
    lemma_length_line(42u8, 3);
    lemma_length_line(36u8, name_set().len());
    lemma_length_line(36u8, kb.len());
    lemma_length_line(36u8, vb.len());
    lemma_ascii_line(h0);
    lemma_ascii_line(seq![36u8] + dec_nat(name_set().len()));
    lemma_ascii_line(name_set());
    lemma_ascii_line(seq![36u8] + dec_nat(kb.len()));
    lemma_ascii_line(seq![36u8] + dec_nat(vb.len()));
    lemma_encode_no_newline(key);
    lemma_encode_no_newline(value);
    assert forall|i: int| 0 <= i < bls.len() implies no_newline(#[trigger] bls[i])
        && vstd::utf8::valid_utf8(bls[i]) by {}
    lemma_crlf_lines(bls, tail);
    let ls = bls.map_values(|l: Seq<u8>| vstd::utf8::decode_utf8(l));
    let r = lines_from(tail, 0);
    let all = ls + r;
    assert(lines_from(rec + tail, 0) == all);
    let l0 = vstd::utf8::decode_utf8(h0);
    assert(all[0] == l0);
    assert(l0[0] == '*') by {
        vstd::utf8::char_u32_cast(l0[0], 42u32);
        vstd::utf8::char_u32_cast('*', 42u32);
    }
    assert(opens_command(trimmed(all[0])));
    assert(line_at(all, 2) == vstd::utf8::decode_utf8(name_set()));
    assert(command_name_at(all, 0) == name_set());
    assert(line_at(all, 4) == key);
    assert(line_at(all, 6) == value);
    lemma_trim_safe(key);
    lemma_trim_safe(value);
    lemma_replay_shift(ls, r, 0, st.insert(key, value));
}

/// The lines `$<len>` and the key, for each key in order.
pub open spec fn key_lines(encs: Seq<Seq<u8>>) -> Seq<Seq<u8>>
    decreases encs.len(),
{
    if encs.len() == 0 {
        Seq::empty()
    } else {
        seq![seq![36u8] + dec_nat(encs[0].len()), encs[0]] + key_lines(encs.drop_first())
    }
}

/// The store after removing `keys` one after the other.
pub open spec fn remove_all(st: Map<Seq<char>, Seq<char>>, keys: Seq<Seq<char>>) -> Map<
    Seq<char>,
    Seq<char>,
>
    decreases keys.len(),
{
    if keys.len() == 0 {
        st
    } else {
        remove_all(st.remove(keys[0]), keys.drop_first())
    }
}

proof fn lemma_key_lines(encs: Seq<Seq<u8>>, rest: Seq<Seq<u8>>)
    ensures
        concat_bulks(encs) + crlf_lines(rest) == crlf_lines(key_lines(encs) + rest),
        key_lines(encs).len() == 2 * encs.len(),
        forall|t: int|
            0 <= t < encs.len() ==> key_lines(encs)[2 * t] == seq![36u8] + dec_nat(
                (#[trigger] encs[t]).len(),
            ) && key_lines(encs)[2 * t + 1] == encs[t],
    decreases encs.len(),
{
    if encs.len() == 0 {
        assert(concat_bulks(encs) =~= Seq::<u8>::empty());
        assert(key_lines(encs) + rest =~= rest);
        assert(concat_bulks(encs) + crlf_lines(rest) =~= crlf_lines(rest));
    } else {
        let e0 = encs[0];
        let more = encs.drop_first();
        lemma_key_lines(more, rest);
        crate::protocol::roundtrip::lemma_concat_bulks_first(encs);
        lemma_bulk_lines(e0, key_lines(more) + rest);
        let h = seq![36u8] + dec_nat(e0.len());
        assert(key_lines(encs) + rest =~= seq![h, e0] + (key_lines(more) + rest));
        assert(concat_bulks(encs) + crlf_lines(rest) =~= bulk_frame(e0) + (concat_bulks(more)
            + crlf_lines(rest)));
        let kl = key_lines(encs);
        assert forall|t: int| 0 <= t < encs.len() implies kl[2 * t] == seq![36u8] + dec_nat(
            (#[trigger] encs[t]).len(),
        ) && kl[2 * t + 1] == encs[t] by {
            if t > 0 {
                assert(more[t - 1] == encs[t]);
                assert(kl[2 * t] == key_lines(more)[2 * (t - 1)]);
                assert(kl[2 * t + 1] == key_lines(more)[2 * (t - 1) + 1]);
            }
        }
    }
}

proof fn lemma_remove_key_lines_all(
    all: Seq<Seq<char>>,
    keys: Seq<Seq<char>>,
    t: int,
    s: Map<Seq<char>, Seq<char>>,
)
    requires
        0 <= t <= keys.len(),
        all.len() >= 3 + 2 * keys.len(),
        forall|u: int| 0 <= u < keys.len() ==> trimmed(all[4 + 2 * u]) == #[trigger] keys[u],
        forall|u: int|
            0 <= u < keys.len() ==> !opens_command(trimmed(#[trigger] all[3 + 2 * u])),
    ensures
        remove_key_lines(all, 4 + 2 * t, keys.len() - t, s) == remove_all(
            s,
            keys.subrange(t, keys.len() as int),
        ),
        keys_taken(all, 4 + 2 * t, keys.len() - t) == keys.len() - t,
    decreases keys.len() - t,
{
    if t < keys.len() {
        assert(!opens_command(trimmed(all[3 + 2 * t])));
        assert(!key_run_stops(all, 4 + 2 * t));
        let sub = keys.subrange(t, keys.len() as int);
        assert(sub[0] == keys[t]);
        assert(sub.drop_first() =~= keys.subrange(t + 1, keys.len() as int));
        lemma_remove_key_lines_all(all, keys, t + 1, s.remove(keys[t]));
    } else {
        assert(keys.subrange(t, keys.len() as int) =~= Seq::<Seq<char>>::empty());
    }
}

/// The lines of the record a `DEL` of one or more keys writes, and that
/// replaying them removes the keys one after the other.
pub proof fn lemma_del_record_replays(
    keys: Seq<Seq<char>>,
    tail: Seq<u8>,
    st: Map<Seq<char>, Seq<char>>,
)
    requires
        keys.len() >= 1,
        keys.len() < i64::MAX,
        forall|i: int| 0 <= i < keys.len() ==> log_safe(#[trigger] keys[i]),
    ensures
        ({
            let encs = keys.map_values(|k: Seq<char>| vstd::utf8::encode_utf8(k));
            let rec = array_header_frame(keys.len() + 1) + bulk_frame(name_del()) + concat_bulks(
                encs,
            );
            replay_from(lines_from(rec + tail, 0), 0, st) == replay_from(
                lines_from(tail, 0),
                0,
                remove_all(st, keys),
            )
        }),
{
    broadcast use vstd::utf8::encode_utf8_valid_utf8, vstd::utf8::encode_utf8_decode_utf8,
        vstd::utf8::decode_utf8_encode_utf8;

    let m = keys.len() as int;
    let encs = keys.map_values(|k: Seq<char>| vstd::utf8::encode_utf8(k));
    let h0 = seq![42u8] + dec_nat((m + 1) as nat);
    let h1 = seq![36u8] + dec_nat(name_del().len());
    let empty = Seq::<Seq<u8>>::empty();
    lemma_key_lines(encs, empty);
    let kl = key_lines(encs);
    assert(kl + empty =~= kl);
    assert(crlf_lines(empty) =~= Seq::<u8>::empty());
    assert(concat_bulks(encs) =~= crlf_lines(kl));
    lemma_bulk_lines(name_del(), kl);
    lemma_crlf_lines_cons(h0, seq![h1, name_del()] + kl);
    let bls = seq![h0, h1, name_del()] + kl;
    assert(seq![h0] + (seq![h1, name_del()] + kl) =~= bls);
    let rec = array_header_frame((m + 1) as nat) + bulk_frame(name_del()) + concat_bulks(encs);
    assert(rec =~= crlf_lines(bls));
    lemma_length_line(42u8, (m + 1) as nat);
    lemma_length_line(36u8, name_del().len());
    lemma_ascii_line(h0);
    lemma_ascii_line(h1);
    lemma_ascii_line(name_del());
    assert forall|i: int| 0 <= i < bls.len() implies no_newline(#[trigger] bls[i])
        && vstd::utf8::valid_utf8(bls[i]) by {
        if i >= 3 {
            let u = (i - 3) / 2;
            assert(0 <= u < m);
            assert(encs[u] == vstd::utf8::encode_utf8(keys[u]));
            if (i - 3) % 2 == 0 {
                assert(bls[i] == kl[2 * u]);
                lemma_length_line(36u8, encs[u].len());
                lemma_ascii_line(seq![36u8] + dec_nat(encs[u].len()));
            } else {
                assert(bls[i] == kl[2 * u + 1]);
                lemma_encode_no_newline(keys[u]);
            }
        }
    }
    lemma_crlf_lines(bls, tail);
    let ls = bls.map_values(|l: Seq<u8>| vstd::utf8::decode_utf8(l));
    let r = lines_from(tail, 0);
    let all = ls + r;
    assert(lines_from(rec + tail, 0) == all);
    let l0 = vstd::utf8::decode_utf8(h0);
    assert(all[0] == l0);
    assert(l0[0] == '*') by {
        vstd::utf8::char_u32_cast(l0[0], 42u32);
        vstd::utf8::char_u32_cast('*', 42u32);
    }
    assert(opens_command(trimmed(all[0])));
    assert(line_at(all, 2) == vstd::utf8::decode_utf8(name_del()));
    assert(command_name_at(all, 0) == name_del());
    assert(name_del() != name_set()) by {
        assert(name_del()[0] != name_set()[0]);
    }
    crate::protocol::roundtrip::lemma_decimal_roundtrip((m + 1) as i64);
    assert(vstd::utf8::encode_utf8(trimmed(all[0])) == h0);
    assert(h0.subrange(1, h0.len() as int) =~= dec_nat((m + 1) as nat));
    assert(del_arity(trimmed(all[0])) == m + 1);
    assert(ls.len() == 3 + 2 * m);
    assert forall|u: int| 0 <= u < keys.len() implies trimmed(all[4 + 2 * u]) == #[trigger] keys[u] by {
        assert(all[4 + 2 * u] == ls[4 + 2 * u]);
        assert(bls[4 + 2 * u] == kl[2 * u + 1]);
        assert(encs[u] == vstd::utf8::encode_utf8(keys[u]));
        lemma_trim_safe(keys[u]);
    }
    assert forall|u: int| 0 <= u < keys.len() implies !opens_command(
        trimmed(#[trigger] all[3 + 2 * u]),
    ) by {
        assert(all[3 + 2 * u] == ls[3 + 2 * u]);
        assert(bls[3 + 2 * u] == kl[2 * u]);
        let b = seq![36u8] + dec_nat(encs[u].len());
        lemma_length_line(36u8, encs[u].len());
        lemma_ascii_line(b);
        let l = vstd::utf8::decode_utf8(b);
        assert((l[0] as u32) == 36u32);
        assert(l[0] != '*') by {
            vstd::utf8::char_u32_cast('*', 42u32);
        }
    }
    lemma_remove_key_lines_all(all, keys, 0, st);
    assert(keys.subrange(0, m) =~= keys);
    lemma_replay_shift(ls, r, 0, remove_all(st, keys));
}

} // verus!
