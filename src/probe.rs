use vstd::prelude::*;
use crate::status::{DomainStatus, status_of};

verus! {

/// The code used when a reply carries no readable code.
pub const SENTINEL_CODE: i32 = -99;

/// The suffix of every probed domain.
pub open spec fn tld() -> Seq<char> {
    seq!['.', 'l', 'i']
}

/// The full domain name of a label.
pub open spec fn domain_of(label: Seq<char>) -> Seq<char> {
    label + tld()
}

/// The query line sent for a label.
pub open spec fn query_of(label: Seq<char>) -> Seq<char> {
    domain_of(label).push('\n')
}

/// What `str::trim` returns: the text without leading and trailing white space.
pub uninterp spec fn trimmed(s: Seq<char>) -> Seq<char>;

pub open spec fn is_digit(c: char) -> bool {
    '0' <= c && c <= '9'
}

pub open spec fn all_digits(s: Seq<char>) -> bool {
    forall|k: int| 0 <= k < s.len() ==> is_digit(#[trigger] s[k])
}

/// The value of a string of decimal digits.
pub open spec fn digits_value(s: Seq<char>) -> int
    decreases s.len(),
{
    if s.len() == 0 {
        0
    } else {
        10 * digits_value(s.drop_last()) + (s.last() as u32 - '0' as u32)
    }
}

/// A decimal integer: an optional `+` or `-` and one or more digits, in the
/// range of `i32`.
pub open spec fn i32_of_text(s: Seq<char>) -> Option<int> {
    let signed = s.len() > 0 && (s[0] == '-' || s[0] == '+');
    let d = if signed { s.drop_first() } else { s };
    let v = if signed && s[0] == '-' { -digits_value(d) } else { digits_value(d) };
    if d.len() > 0 && all_digits(d) && i32::MIN <= v <= i32::MAX {
        Some(v)
    } else {
        None
    }
}

/// The code a code text stands for, or the sentinel when it is no integer.
pub open spec fn code_of_text(s: Seq<char>) -> int {
    match i32_of_text(s) {
        Some(v) => v,
        None => SENTINEL_CODE as int,
    }
}

/// `i` is the position of the first colon of `t`.
pub open spec fn first_colon(t: Seq<char>, i: int) -> bool {
    &&& 0 <= i < t.len()
    &&& t[i] == ':'
    &&& forall|k: int| 0 <= k < i ==> t[k] != ':'
}

/// `code` and `message` are what the trimmed reply `t` says: the text before
/// its first colon read as an integer and the trimmed text after it; without
/// a colon, the sentinel code and the whole text.
pub open spec fn is_reply_of(t: Seq<char>, code: int, message: Seq<char>) -> bool {
    &&& (forall|k: int| 0 <= k < t.len() ==> t[k] != ':') ==> code == SENTINEL_CODE && message == t
    &&& forall|i: int| first_colon(t, i) ==> code == code_of_text(t.take(i)) && message == trimmed(t.skip(i + 1))
}

/// Relies on `str::trim`, named by `trimmed`.
#[verifier::external_body]
fn trim_text(s: &str) -> (r: &str)
    ensures
        r@ == trimmed(s@),
{
    s.trim()
}

/// Relies on `i32`'s `FromStr`: an optional sign and decimal digits, with
/// an error when the value leaves the range.
#[verifier::external_body]
fn parse_i32(s: &str) -> (r: Option<i32>)
    ensures
        match r {
            Some(v) => i32_of_text(s@) == Some(v as int),
            None => i32_of_text(s@) is None,
        },
{
    s.parse::<i32>().ok()
}

/// A reply of the registry: its code and its message.
#[derive(Debug, PartialEq, Eq)]
pub struct Reply {
    pub code: i32,
    pub message: String,
}

/// Splits an already trimmed reply at its first colon.
pub fn reply_from_trimmed(t: &str) -> (r: Reply)
    ensures
        is_reply_of(t@, r.code as int, r.message@),
{
    let n = t.unicode_len();
    let mut i: usize = 0;
    while i < n
        invariant
            n == t@.len(),
            i <= n,
            forall|k: int| 0 <= k < i ==> t@[k] != ':',
        decreases n - i,
    {
        if t.get_char(i) == ':' {
            let head = t.substring_char(0, i);
            let tail = t.substring_char(i + 1, n);
            let code = match parse_i32(head) {
                Some(v) => v,
                None => SENTINEL_CODE,
            };
            let message = String::from_str(trim_text(tail));
            assert(first_colon(t@, i as int));
            assert forall|j: int| first_colon(t@, j) implies j == i by {
                if j < i {
                    assert(t@[j] != ':');
                } else if j > i {
                    assert(t@[i as int] != ':');
                }
            }
            return Reply { code, message };
        }
        i = i + 1;
    }
    Reply { code: SENTINEL_CODE, message: String::from_str(t) }
}

/// Reads a raw reply: trimmed, then split at its first colon.
pub fn parse_response(response: &str) -> (r: Reply)
    ensures
        is_reply_of(trimmed(response@), r.code as int, r.message@),
{
    reply_from_trimmed(trim_text(response))
}

/// The full domain name of a label.
pub fn domain_name(label: &str) -> (r: String)
    ensures
        r@ == domain_of(label@),
{
    let mut r = String::from_str(label);
    r.append(".li");
    proof {
        reveal_strlit(".li");
    }
    assert(r@ =~= domain_of(label@));
    r
}

/// The line sent to the registry for a label.
pub fn query_line(label: &str) -> (r: String)
    ensures
        r@ == query_of(label@),
{
    let mut r = domain_name(label);
    r.append("\n");
    proof {
        reveal_strlit("\n");
    }
    assert(r@ =~= query_of(label@));
    r
}

/// The outcome of probing one domain.
#[derive(Debug, PartialEq, Eq)]
pub struct ProbeResult {
    pub domain: String,
    pub status: DomainStatus,
    pub reply_code: i32,
    pub message: String,
    /// Milliseconds since the Unix epoch.
    pub timestamp_ms: i64,
}

impl ProbeResult {
    /// The result of a probe of `label` that received `response`.
    pub fn from_response(label: &str, response: &str, timestamp_ms: i64) -> (r: ProbeResult)
        ensures
            r.domain@ == domain_of(label@),
            is_reply_of(trimmed(response@), r.reply_code as int, r.message@),
            r.status == status_of(r.reply_code as int),
            r.timestamp_ms == timestamp_ms,
    {
        let reply = parse_response(response);
        let status = DomainStatus::from_reply_code(reply.code);
        ProbeResult {
            domain: domain_name(label),
            status,
            reply_code: reply.code,
            message: reply.message,
            timestamp_ms,
        }
    }

    /// The result of a probe of `label` that failed before a reply came
    /// (no connection, a transport error, a timeout), with the cause as its
    /// message.
    pub fn failed(label: &str, cause: &str, timestamp_ms: i64) -> (r: ProbeResult)
        ensures
            r.domain@ == domain_of(label@),
            r.status == DomainStatus::Error,
            r.reply_code == SENTINEL_CODE,
            r.message@ == cause@,
            r.timestamp_ms == timestamp_ms,
    {
        ProbeResult {
            domain: domain_name(label),
            status: DomainStatus::Error,
            reply_code: SENTINEL_CODE,
            message: String::from_str(cause),
            timestamp_ms,
        }
    }
}

} // verus!
