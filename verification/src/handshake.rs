use vstd::prelude::*;

use crate::RsyncError;

verus! {

// The text phase of the connection: the greeting exchange, the module
// request, and the classification of the server's reply lines before the
// stream turns binary.

/// `@RSYNCD: ` as bytes.
pub open spec fn rsyncd_prefix() -> Seq<u8> {
    seq![64u8, 82u8, 83u8, 89u8, 78u8, 67u8, 68u8, 58u8, 32u8]
}

/// `@RSYNCD: 27.0\n`: the greeting this client sends.
pub open spec fn client_greeting_bytes() -> Seq<u8> {
    rsyncd_prefix() + seq![50u8, 55u8, 46u8, 48u8, 10u8]
}

pub fn client_greeting() -> (r: Vec<u8>)
    ensures
        r@ == client_greeting_bytes(),
{
    let mut out: Vec<u8> = Vec::new();
    out.push(64);
    out.push(82);
    out.push(83);
    out.push(89);
    out.push(78);
    out.push(67);
    out.push(68);
    out.push(58);
    out.push(32);
    out.push(50);
    out.push(55);
    out.push(46);
    out.push(48);
    out.push(10);
    proof {
        assert(out@ =~= client_greeting_bytes());
    }
    out
}

pub open spec fn is_ws(b: u8) -> bool {
    b == 10 || b == 13 || b == 32 || b == 9
}

pub open spec fn is_digit(b: u8) -> bool {
    48 <= b <= 57
}

/// The line without its trailing whitespace.
pub open spec fn strip_trailing_ws(s: Seq<u8>) -> Seq<u8>
    decreases s.len(),
{
    if s.len() > 0 && is_ws(s.last()) {
        strip_trailing_ws(s.drop_last())
    } else {
        s
    }
}

pub open spec fn has_prefix(s: Seq<u8>, p: Seq<u8>) -> bool {
    s.len() >= p.len() && s.subrange(0, p.len() as int) == p
}

/// The length of the leading digit run.
pub open spec fn digit_run(s: Seq<u8>) -> int
    decreases s.len(),
{
    if s.len() > 0 && is_digit(s[0]) {
        1 + digit_run(s.drop_first())
    } else {
        0
    }
}

/// The number the first `n` digits spell.
pub open spec fn digits_val(s: Seq<u8>, n: int) -> int
    decreases n,
{
    if n <= 0 {
        0
    } else {
        digits_val(s, n - 1) * 10 + (s[n - 1] - 48)
    }
}

/// The major protocol version of a greeting line: the line, stripped of
/// trailing whitespace, must open with `@RSYNCD: ` and carry one to nine
/// digits; what follows the digits (a `.MINOR` part, normally) is ignored.
pub open spec fn spec_greeting_version(line: Seq<u8>) -> Option<u32> {
    let t = strip_trailing_ws(line);
    if !has_prefix(t, rsyncd_prefix()) {
        None
    } else {
        let rest = t.skip(9);
        let n = digit_run(rest);
        if n == 0 || n > 9 {
            None
        } else {
            Some(digits_val(rest, n) as u32)
        }
    }
}

/// An upper bound on what `n` digits can spell, for small `n`.
pub open spec fn ten_to(n: int) -> int {
    if n <= 0 {
        1
    } else if n == 1 {
        10
    } else if n == 2 {
        100
    } else if n == 3 {
        1000
    } else if n == 4 {
        10000
    } else if n == 5 {
        100000
    } else if n == 6 {
        1000000
    } else if n == 7 {
        10000000
    } else if n == 8 {
        100000000
    } else {
        1000000000
    }
}

proof fn lemma_digits_bound(s: Seq<u8>, n: int)
    requires
        0 <= n <= 9,
        forall|i: int| 0 <= i < n ==> is_digit(#[trigger] s[i]),
        n <= s.len(),
    ensures
        0 <= digits_val(s, n) < ten_to(n),
    decreases n,
{
    if n > 0 {
        lemma_digits_bound(s, n - 1);
    }
}

/// Parses the server's greeting and enforces the minimum version: the
/// version when it is 27 or newer, `VersionTooOld` with the offered version
/// when it is older, `ProtocolError` when the line is no greeting.
pub fn check_greeting(line: &Vec<u8>) -> (r: Result<u32, RsyncError>)
    ensures
        match spec_greeting_version(line@) {
            None => r == Err::<u32, RsyncError>(RsyncError::ProtocolError),
            Some(v) => if v >= 27 {
                r == Ok::<u32, RsyncError>(v)
            } else {
                r == Err::<u32, RsyncError>(RsyncError::VersionTooOld(v as i32))
            },
        },
{
    let mut end: usize = line.len();
    proof {
        assert(line@.subrange(0, line@.len() as int) =~= line@);
    }
    while end > 0 && (line[end - 1] == 10 || line[end - 1] == 13 || line[end - 1] == 32 || line[end
        - 1] == 9)
        invariant
            end <= line.len(),
            strip_trailing_ws(line@) == strip_trailing_ws(line@.subrange(0, end as int)),
        decreases end,
    {
        proof {
            assert(line@.subrange(0, end as int).drop_last() =~= line@.subrange(0, end - 1));
        }
        end = end - 1;
    }
    proof {
        assert(strip_trailing_ws(line@.subrange(0, end as int)) == line@.subrange(0, end as int));
    }
    let ghost t = strip_trailing_ws(line@);
    if end < 9 {
        return Err(RsyncError::ProtocolError);
    }
    if !(line[0] == 64 && line[1] == 82 && line[2] == 83 && line[3] == 89 && line[4] == 78
        && line[5] == 67 && line[6] == 68 && line[7] == 58 && line[8] == 32) {
        proof {
            assert(!has_prefix(t, rsyncd_prefix())) by {
                if has_prefix(t, rsyncd_prefix()) {
                    assert(forall|i: int|
                        0 <= i < 9 ==> t.subrange(0, 9)[i] == #[trigger] rsyncd_prefix()[i]);
                    assert(t[0] == 64 && t[1] == 82 && t[2] == 83 && t[3] == 89 && t[4] == 78
                        && t[5] == 67 && t[6] == 68 && t[7] == 58 && t[8] == 32);
                }
            }
        }
        return Err(RsyncError::ProtocolError);
    }
    proof {
        assert(has_prefix(t, rsyncd_prefix())) by {
            assert(t.subrange(0, 9) =~= rsyncd_prefix());
        }
    }
    let ghost rest = t.skip(9);
    // measure the digit run
    let mut n: usize = 0;
    while 9 + n < end && line[9 + n] >= 48 && line[9 + n] <= 57
        invariant
            9 <= 9 + n <= end <= line.len(),
            t == line@.subrange(0, end as int),
            rest == t.skip(9),
            forall|i: int| 0 <= i < n ==> is_digit(#[trigger] rest[i]),
            n <= rest.len(),
        decreases end - n,
    {
        proof {
            assert(rest[n as int] == line@[9 + n]);
        }
        n = n + 1;
    }
    proof {
        if 9 + n < end {
            assert(rest[n as int] == line@[9 + n]);
            assert(!is_digit(rest[n as int]));
        }
        lemma_digit_run_exact(rest, n as int);
    }
    if n == 0 || n > 9 {
        return Err(RsyncError::ProtocolError);
    }
    // the run's value
    let mut v: u32 = 0;
    let mut i: usize = 0;
    while i < n
        invariant
            i <= n <= 9,
            9 + n <= end <= line.len(),
            t == line@.subrange(0, end as int),
            rest == t.skip(9),
            forall|k: int| 0 <= k < n ==> is_digit(#[trigger] rest[k]),
            n <= rest.len(),
            v == digits_val(rest, i as int),
            v < ten_to(i as int),
        decreases n - i,
    {
        proof {
            lemma_digits_bound(rest, i as int);
            lemma_digits_bound(rest, i + 1);
            assert(rest[i as int] == line@[9 + i]);
        }
        v = v * 10 + ((line[9 + i] - 48) as u32);
        i = i + 1;
    }
    if v >= 27 {
        Ok(v)
    } else {
        Err(RsyncError::VersionTooOld(v as i32))
    }
}

proof fn lemma_digit_run_exact(s: Seq<u8>, n: int)
    requires
        0 <= n <= s.len(),
        forall|i: int| 0 <= i < n ==> is_digit(#[trigger] s[i]),
        n < s.len() ==> !is_digit(s[n]),
    ensures
        digit_run(s) == n,
    decreases n,
{
    if n == 0 {
    } else {
        assert(forall|i: int| 0 <= i < n - 1 ==> is_digit(#[trigger] s.drop_first()[i]));
        lemma_digit_run_exact(s.drop_first(), n - 1);
    }
}

pub enum ServerLine {
    Accepted,
    Failed,
    AuthRequired,
    Motd,
}

pub open spec fn err_prefix() -> Seq<u8> {
    seq![64u8, 69u8, 82u8, 82u8, 79u8, 82u8]
}

pub open spec fn ok_line_prefix() -> Seq<u8> {
    rsyncd_prefix() + seq![79u8, 75u8]
}

pub open spec fn authreqd_prefix() -> Seq<u8> {
    rsyncd_prefix() + seq![65u8, 85u8, 84u8, 72u8, 82u8, 69u8, 81u8, 68u8, 32u8]
}

/// Classifies one server reply line after the module request: `@ERROR`
/// fails the session, `@RSYNCD: AUTHREQD ` demands authentication,
/// `@RSYNCD: OK` proceeds, anything else is a message-of-the-day line for
/// the log.
pub fn classify_server_line(line: &Vec<u8>) -> (r: ServerLine)
    ensures
        has_prefix(line@, err_prefix()) <==> r is Failed,
        !has_prefix(line@, err_prefix()) && has_prefix(line@, authreqd_prefix()) <==> r
            is AuthRequired,
        !has_prefix(line@, err_prefix()) && !has_prefix(line@, authreqd_prefix()) && has_prefix(
            line@,
            ok_line_prefix(),
        ) <==> r is Accepted,
        !has_prefix(line@, err_prefix()) && !has_prefix(line@, authreqd_prefix()) && !has_prefix(
            line@,
            ok_line_prefix(),
        ) <==> r is Motd,
{
    let e = starts_with_bytes(line, &[64, 69, 82, 82, 79, 82]);
    proof {
        assert(seq![64u8, 69u8, 82u8, 82u8, 79u8, 82u8] =~= err_prefix());
    }
    if e {
        return ServerLine::Failed;
    }
    let a = starts_with_bytes(
        line,
        &[64, 82, 83, 89, 78, 67, 68, 58, 32, 65, 85, 84, 72, 82, 69, 81, 68, 32],
    );
    proof {
        assert(seq![
            64u8, 82u8, 83u8, 89u8, 78u8, 67u8, 68u8, 58u8, 32u8, 65u8, 85u8, 84u8, 72u8, 82u8,
            69u8, 81u8, 68u8, 32u8,
        ] =~= authreqd_prefix());
    }
    if a {
        return ServerLine::AuthRequired;
    }
    let o = starts_with_bytes(line, &[64, 82, 83, 89, 78, 67, 68, 58, 32, 79, 75]);
    proof {
        assert(seq![64u8, 82u8, 83u8, 89u8, 78u8, 67u8, 68u8, 58u8, 32u8, 79u8, 75u8]
            =~= ok_line_prefix());
    }
    if o {
        return ServerLine::Accepted;
    }
    ServerLine::Motd
}

/// Does `line` open with the bytes of `p`?
fn starts_with_bytes(line: &Vec<u8>, p: &[u8]) -> (r: bool)
    ensures
        r == has_prefix(line@, p@),
{
    if line.len() < p.len() {
        proof {
            assert(!has_prefix(line@, p@));
        }
        return false;
    }
    let mut i: usize = 0;
    while i < p.len()
        invariant
            i <= p@.len() <= line@.len(),
            forall|j: int| 0 <= j < i ==> line@[j] == p@[j],
        decreases p@.len() - i,
    {
        if line[i] != p[i] {
            proof {
                assert(!has_prefix(line@, p@)) by {
                    if has_prefix(line@, p@) {
                        assert(line@.subrange(0, p@.len() as int)[i as int] == p@[i as int]);
                    }
                }
            }
            return false;
        }
        i = i + 1;
    }
    proof {
        assert(line@.subrange(0, p@.len() as int) =~= p@);
    }
    true
}

/// The option block the client sends after the module name: the fixed
/// server options, the requested path when one was given, and the closing
/// empty line.
pub open spec fn options_bytes(path: Seq<u8>) -> Seq<u8> {
    // --server\n--sender\n-ltpr\n.\n
    seq![
        45u8, 45u8, 115u8, 101u8, 114u8, 118u8, 101u8, 114u8, 10u8, 45u8, 45u8, 115u8, 101u8,
        110u8, 100u8, 101u8, 114u8, 10u8, 45u8, 108u8, 116u8, 112u8, 114u8, 10u8, 46u8, 10u8,
    ] + (if path.len() > 0 {
        path + seq![10u8]
    } else {
        Seq::empty()
    }) + seq![10u8]
}

pub fn build_options(path: &Vec<u8>) -> (r: Vec<u8>)
    ensures
        r@ == options_bytes(path@),
{
    let mut out: Vec<u8> = Vec::new();
    let opts: [u8; 26] = [
        45, 45, 115, 101, 114, 118, 101, 114, 10, 45, 45, 115, 101, 110, 100, 101, 114, 10, 45,
        108, 116, 112, 114, 10, 46, 10,
    ];
    let mut i: usize = 0;
    while i < 26
        invariant
            i <= 26,
            out@ == opts@.subrange(0, i as int),
        decreases 26 - i,
    {
        out.push(opts[i]);
        proof {
            assert(out@ =~= opts@.subrange(0, i + 1));
        }
        i = i + 1;
    }
    proof {
        assert(out@ =~= opts@);
    }
    if path.len() > 0 {
        crate::wire::push_all(&mut out, path);
        out.push(10);
    }
    out.push(10);
    proof {
        assert(out@ =~= options_bytes(path@));
    }
    out
}

/// The module request line: the module name and a newline.
pub fn module_line(module: &Vec<u8>) -> (r: Vec<u8>)
    ensures
        r@ == module@ + seq![10u8],
{
    let mut out: Vec<u8> = Vec::new();
    crate::wire::push_all(&mut out, module);
    out.push(10);
    proof {
        assert(out@ =~= module@ + seq![10u8]);
    }
    out
}

} // verus!
