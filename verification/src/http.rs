//! Request-line parsing and HTTP/1.1 response formatting.
//!
//! A request is handled from its first line alone: the line is split into
//! whitespace-separated tokens and the second token is the request path.
//! A hit is answered with a `200 OK` response carrying a `Content-Length`
//! header counted in bytes; a miss with a fixed `404 NOT FOUND` response.

use crate::router::Router;
use vstd::prelude::*;

verus! {

/// The whitespace that separates the request-line tokens.
pub open spec fn is_space(c: char) -> bool {
    c == ' ' || c == '\t' || c == '\r' || c == '\n'
}

/// The index of the first whitespace character of `s` (the length of `s`
/// when it has none).
pub open spec fn first_space(s: Seq<char>) -> int
    decreases s.len(),
{
    if s.len() == 0 {
        0
    } else if is_space(s[0]) {
        0
    } else {
        1 + first_space(s.skip(1))
    }
}

proof fn lemma_first_space_bounds(s: Seq<char>)
    ensures
        0 <= first_space(s) <= s.len(),
    decreases s.len(),
{
    if s.len() > 0 && !is_space(s[0]) {
        lemma_first_space_bounds(s.skip(1));
    }
}

/// The whitespace-separated tokens of `s`, in order.
pub open spec fn spec_split_ws(s: Seq<char>) -> Seq<Seq<char>>
    decreases s.len(),
    via spec_split_ws_decreases
{
    if s.len() == 0 {
        Seq::<Seq<char>>::empty()
    } else if is_space(s[0]) {
        spec_split_ws(s.skip(1))
    } else {
        seq![s.take(first_space(s))] + spec_split_ws(s.skip(first_space(s)))
    }
}

#[via_fn]
proof fn spec_split_ws_decreases(s: Seq<char>) {
    if s.len() > 0 && !is_space(s[0]) {
        lemma_first_space_bounds(s);
        lemma_first_space_bounds(s.skip(1));
    }
}

/// Where the whitespace positions are known, the first-space index is
/// determined.
proof fn lemma_first_space_at(s: Seq<char>, j: int)
    requires
        0 <= j <= s.len(),
        forall|k: int| 0 <= k < j ==> !is_space(s[k]),
        j == s.len() || is_space(s[j]),
    ensures
        first_space(s) == j,
    decreases j,
{
    if j > 0 {
        assert(!is_space(s[0]));
        assert(s.skip(1) =~= s.subrange(1, s.len() as int));
        lemma_first_space_at(s.skip(1), j - 1);
    }
}

fn is_space_char(c: char) -> (b: bool)
    ensures
        b == is_space(c),
{
    c == ' ' || c == '\t' || c == '\r' || c == '\n'
}

/// Extract the request path: the second whitespace-separated token of the
/// request line. `None` exactly when the line has fewer than two tokens.
pub fn parse_request_path(line: &str) -> (r: Option<String>)
    ensures
        match r {
            Some(p) => spec_split_ws(line@).len() >= 2 && p@ == spec_split_ws(line@)[1],
            None => spec_split_ws(line@).len() < 2,
        },
{
    let n = line.unicode_len();
    // skip the whitespace before the first token
    let mut i: usize = 0;
    proof {
        assert(line@.skip(0) =~= line@);
    }
    while i < n && is_space_char(line.get_char(i))
        invariant
            n == line@.len(),
            0 <= i <= n,
            spec_split_ws(line@) == spec_split_ws(line@.skip(i as int)),
        decreases n - i,
    {
        proof {
            assert(line@.skip(i as int)[0] == line@[i as int]);
            assert(line@.skip(i as int).skip(1) =~= line@.skip(i + 1));
        }
        i += 1;
    }
    if i == n {
        proof {
            assert(line@.skip(n as int) =~= Seq::<char>::empty());
        }
        return None;
    }
    // scan the first token
    let mut j: usize = i;
    while j < n && !is_space_char(line.get_char(j))
        invariant
            n == line@.len(),
            0 <= i <= j <= n,
            forall|k: int| i <= k < j ==> !is_space(line@[k]),
        decreases n - j,
    {
        j += 1;
    }
    proof {
        let s1 = line@.skip(i as int);
        assert(forall|k: int| 0 <= k < j - i ==> s1[k] == line@[i + k]);
        if j < n {
            assert(s1[j - i] == line@[j as int]);
        }
        lemma_first_space_at(s1, j - i);
        assert(!is_space(s1[0]));
        assert(s1.skip(j - i) =~= line@.skip(j as int));
        assert(spec_split_ws(line@) == seq![s1.take(j - i)] + spec_split_ws(line@.skip(j as int)));
    }
    // skip the whitespace between the first and second tokens
    let mut k: usize = j;
    while k < n && is_space_char(line.get_char(k))
        invariant
            n == line@.len(),
            0 <= j <= k <= n,
            spec_split_ws(line@.skip(j as int)) == spec_split_ws(line@.skip(k as int)),
        decreases n - k,
    {
        proof {
            assert(line@.skip(k as int)[0] == line@[k as int]);
            assert(line@.skip(k as int).skip(1) =~= line@.skip(k + 1));
        }
        k += 1;
    }
    if k == n {
        proof {
            assert(line@.skip(n as int) =~= Seq::<char>::empty());
            assert(spec_split_ws(line@).len() == 1);
        }
        return None;
    }
    // scan the second token
    let mut l: usize = k;
    while l < n && !is_space_char(line.get_char(l))
        invariant
            n == line@.len(),
            0 <= k <= l <= n,
            forall|m: int| k <= m < l ==> !is_space(line@[m]),
        decreases n - l,
    {
        l += 1;
    }
    let path = line.substring_char(k, l);
    proof {
        let s2 = line@.skip(k as int);
        assert(forall|m: int| 0 <= m < l - k ==> s2[m] == line@[k + m]);
        if l < n {
            assert(s2[l - k] == line@[l as int]);
        }
        lemma_first_space_at(s2, l - k);
        assert(!is_space(s2[0]));
        assert(s2.skip(l - k) =~= line@.skip(l as int));
        assert(spec_split_ws(line@.skip(k as int)) == seq![s2.take(l - k)] + spec_split_ws(
            line@.skip(l as int),
        ));
        assert(spec_split_ws(line@)[1] == s2.take(l - k));
        assert(path@ =~= s2.take(l - k));
    }
    Some(path.to_owned())
}

/// The decimal rendering of `n`, most significant digit first, without
/// leading zeros (`0` itself is rendered as `0`).
pub open spec fn dec_digits(n: nat) -> Seq<char>
    decreases n,
{
    if n < 10 {
        seq![digit_char(n)]
    } else {
        dec_digits(n / 10).push(digit_char(n % 10))
    }
}

/// The character for the decimal digit `d`.
pub open spec fn digit_char(d: nat) -> char {
    if d == 0 {
        '0'
    } else if d == 1 {
        '1'
    } else if d == 2 {
        '2'
    } else if d == 3 {
        '3'
    } else if d == 4 {
        '4'
    } else if d == 5 {
        '5'
    } else if d == 6 {
        '6'
    } else if d == 7 {
        '7'
    } else if d == 8 {
        '8'
    } else {
        '9'
    }
}

fn digit_str(d: usize) -> (r: &'static str)
    requires
        d < 10,
    ensures
        r@ == seq![digit_char(d as nat)],
{
    proof {
        reveal_strlit("0");
        reveal_strlit("1");
        reveal_strlit("2");
        reveal_strlit("3");
        reveal_strlit("4");
        reveal_strlit("5");
        reveal_strlit("6");
        reveal_strlit("7");
        reveal_strlit("8");
        reveal_strlit("9");
        assert("0"@ =~= seq!['0']);
        assert("1"@ =~= seq!['1']);
        assert("2"@ =~= seq!['2']);
        assert("3"@ =~= seq!['3']);
        assert("4"@ =~= seq!['4']);
        assert("5"@ =~= seq!['5']);
        assert("6"@ =~= seq!['6']);
        assert("7"@ =~= seq!['7']);
        assert("8"@ =~= seq!['8']);
        assert("9"@ =~= seq!['9']);
    }
    if d == 0 {
        "0"
    } else if d == 1 {
        "1"
    } else if d == 2 {
        "2"
    } else if d == 3 {
        "3"
    } else if d == 4 {
        "4"
    } else if d == 5 {
        "5"
    } else if d == 6 {
        "6"
    } else if d == 7 {
        "7"
    } else if d == 8 {
        "8"
    } else {
        "9"
    }
}

/// Render `n` in decimal.
pub fn usize_to_string(n: usize) -> (r: String)
    ensures
        r@ == dec_digits(n as nat),
    decreases n,
{
    if n < 10 {
        digit_str(n).to_owned()
    } else {
        let mut s = usize_to_string(n / 10);
        s.append(digit_str(n % 10));
        proof {
            assert(dec_digits((n / 10) as nat).push(digit_char((n % 10) as nat)) =~= dec_digits(
                (n / 10) as nat,
            ) + seq![digit_char((n % 10) as nat)]);
        }
        s
    }
}

/// The number of bytes of the UTF-8 encoding of `body`: what the
/// `Content-Length` header counts.
pub open spec fn byte_len(body: Seq<char>) -> nat {
    vstd::utf8::encode_utf8(body).len()
}

/// The full success response for `body`: status line, `Content-Length`
/// header, blank line, body.
pub open spec fn spec_ok_response(body: Seq<char>) -> Seq<char> {
    "HTTP/1.1 200 OK\r\nContent-Length: "@ + dec_digits(byte_len(body)) + "\r\n\r\n"@ + body
}

/// The fixed response for a route miss.
pub open spec fn spec_not_found_response() -> Seq<char> {
    "HTTP/1.1 404 NOT FOUND\r\n\r\n"@
}

/// Format the `200 OK` response that serves `contents`.
pub fn ok_response(contents: &str) -> (r: String)
    ensures
        r@ == spec_ok_response(contents@),
{
    let len = contents.as_bytes().len();
    let len_str = usize_to_string(len);
    let mut r = "HTTP/1.1 200 OK\r\nContent-Length: ".to_owned();
    r.append(len_str.as_str());
    r.append("\r\n\r\n");
    r.append(contents);
    r
}

/// Format the `404 NOT FOUND` response.
pub fn not_found_response() -> (r: String)
    ensures
        r@ == spec_not_found_response(),
{
    "HTTP/1.1 404 NOT FOUND\r\n\r\n".to_owned()
}

/// What a request line asks the server to do.
pub enum RouteDecision {
    /// The request line has fewer than two tokens: close the connection.
    BadRequest,
    /// The path is not in the index: answer with the `404` response.
    NotFound,
    /// The path is in the index: serve the file at the mapped path.
    Serve(String),
}

/// Decide a request from its first line: extract the path token and look
/// it up in the route index.
pub fn route_request(router: &Router, request_line: &str) -> (r: RouteDecision)
    ensures
        match r {
            RouteDecision::BadRequest => spec_split_ws(request_line@).len() < 2,
            RouteDecision::NotFound => spec_split_ws(request_line@).len() >= 2 && !router@.contains_key(
                spec_split_ws(request_line@)[1],
            ),
            RouteDecision::Serve(path) => spec_split_ws(request_line@).len() >= 2
                && router@.contains_key(spec_split_ws(request_line@)[1]) && path@
                == router@[spec_split_ws(request_line@)[1]],
        },
{
    match parse_request_path(request_line) {
        None => RouteDecision::BadRequest,
        Some(p) => match router.lookup(p.as_str()) {
            None => RouteDecision::NotFound,
            Some(file) => RouteDecision::Serve(file.clone()),
        },
    }
}

} // verus!
