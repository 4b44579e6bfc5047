//! Request assembly for the vendor API and the bus topic layout: the JSON
//! bodies the two endpoints take, the full URL, the signed header set, and
//! the per-device topics the results are published under.

use vstd::prelude::*;
use vstd::utf8::encode_utf8;

use crate::chars::chars_to_string;
use crate::sign::{auth_header_spec, content_hash_spec, sign, Credentials, SignedHeaders};

verus! {

/// The error taxonomy of one polling cycle. Construction of the signature
/// itself cannot fail (HMAC accepts any key), so `Signing` is reserved for
/// completeness of the taxonomy.
pub enum ApiError {
    Signing,
    Transport,
    HttpStatus(u16),
    Decode,
    Publish,
}

impl ApiError {
    /// A short name of the error kind, for logs.
    pub fn describe(&self) -> (r: &'static str)
        ensures
            match self {
                ApiError::Signing => r@ == "signing error"@,
                ApiError::Transport => r@ == "transport error"@,
                ApiError::HttpStatus(_) => r@ == "unexpected http status"@,
                ApiError::Decode => r@ == "malformed response"@,
                ApiError::Publish => r@ == "publish error"@,
            },
    {
        match self {
            ApiError::Signing => "signing error",
            ApiError::Transport => "transport error",
            ApiError::HttpStatus(_) => "unexpected http status",
            ApiError::Decode => "malformed response",
            ApiError::Publish => "publish error",
        }
    }
}

/// The path of the device-list endpoint.
pub fn inverter_list_path() -> (r: &'static str)
    ensures
        r@ == "/v1/api/inverterList"@,
        r@.len() > 0 && r@[0] == '/',
{
    proof {
        reveal_strlit("/v1/api/inverterList");
    }
    "/v1/api/inverterList"
}

/// The path of the device-detail endpoint.
pub fn inverter_detail_path() -> (r: &'static str)
    ensures
        r@ == "/v1/api/inverterDetail"@,
        r@.len() > 0 && r@[0] == '/',
{
    proof {
        reveal_strlit("/v1/api/inverterDetail");
    }
    "/v1/api/inverterDetail"
}

/// The hexadecimal digit for a value below sixteen.
pub open spec fn hex_digit(n: int) -> char {
    if n == 0 { '0' } else if n == 1 { '1' } else if n == 2 { '2' } else if n == 3 { '3' }
    else if n == 4 { '4' } else if n == 5 { '5' } else if n == 6 { '6' } else if n == 7 { '7' }
    else if n == 8 { '8' } else if n == 9 { '9' } else if n == 10 { 'a' } else if n == 11 { 'b' }
    else if n == 12 { 'c' } else if n == 13 { 'd' } else if n == 14 { 'e' } else { 'f' }
}

fn hex_digit_x(n: u32) -> (r: char)
    requires
        n < 16,
    ensures
        r == hex_digit(n as int),
{
    if n == 0 { '0' } else if n == 1 { '1' } else if n == 2 { '2' } else if n == 3 { '3' }
    else if n == 4 { '4' } else if n == 5 { '5' } else if n == 6 { '6' } else if n == 7 { '7' }
    else if n == 8 { '8' } else if n == 9 { '9' } else if n == 10 { 'a' } else if n == 11 { 'b' }
    else if n == 12 { 'c' } else if n == 13 { 'd' } else if n == 14 { 'e' } else { 'f' }
}

/// How one char is written inside a JSON string literal: quote and
/// backslash get a backslash, the five short control escapes are used where
/// they exist, any other control char becomes a `\u00..` escape, and
/// everything else stands as itself.
pub open spec fn escape_char(c: char) -> Seq<char> {
    if c == '"' {
        seq!['\\', '"']
    } else if c == '\\' {
        seq!['\\', '\\']
    } else if c == '\u{8}' {
        seq!['\\', 'b']
    } else if c == '\t' {
        seq!['\\', 't']
    } else if c == '\n' {
        seq!['\\', 'n']
    } else if c == '\u{c}' {
        seq!['\\', 'f']
    } else if c == '\r' {
        seq!['\\', 'r']
    } else if (c as u32) < 32 {
        seq!['\\', 'u', '0', '0', hex_digit((c as int) / 16), hex_digit((c as int) % 16)]
    } else {
        seq![c]
    }
}

/// A string's chars written inside a JSON string literal.
pub open spec fn json_escape(s: Seq<char>) -> Seq<char>
    decreases s.len(),
{
    if s.len() == 0 {
        Seq::empty()
    } else {
        escape_char(s[0]) + json_escape(s.drop_first())
    }
}

fn escape_char_x(out: &mut Vec<char>, c: char)
    ensures
        final(out)@ == old(out)@ + escape_char(c),
{
    if c == '"' {
        out.push('\\');
        out.push('"');
    } else if c == '\\' {
        out.push('\\');
        out.push('\\');
    } else if c == '\u{8}' {
        out.push('\\');
        out.push('b');
    } else if c == '\t' {
        out.push('\\');
        out.push('t');
    } else if c == '\n' {
        out.push('\\');
        out.push('n');
    } else if c == '\u{c}' {
        out.push('\\');
        out.push('f');
    } else if c == '\r' {
        out.push('\\');
        out.push('r');
    } else if (c as u32) < 32 {
        out.push('\\');
        out.push('u');
        out.push('0');
        out.push('0');
        out.push(hex_digit_x((c as u32) / 16));
        out.push(hex_digit_x((c as u32) % 16));
    } else {
        out.push(c);
    }
    proof {
        assert(out@ =~= old(out)@ + escape_char(c));
    }
}

/// Escapes a string for inclusion in a JSON string literal.
fn json_escape_x(s: &str) -> (r: Vec<char>)
    ensures
        r@ == json_escape(s@),
{
    let n = s.unicode_len();
    let mut r: Vec<char> = Vec::new();
    let mut i: usize = 0;
    proof {
        assert(s@.subrange(0, n as int) =~= s@);
        assert(Seq::<char>::empty() + json_escape(s@) =~= json_escape(s@));
    }
    while i < n
        invariant
            n == s@.len(),
            i <= n,
            json_escape(s@) == r@ + json_escape(s@.subrange(i as int, n as int)),
        decreases n - i,
    {
        let ghost rest = s@.subrange(i as int, n as int);
        let ghost r_old = r@;
        let c = s.get_char(i);
        proof {
            assert(rest.len() > 0);
            assert(rest[0] == s@[i as int]);
            assert(rest.drop_first() =~= s@.subrange(i + 1 as int, n as int));
            assert(json_escape(rest) == escape_char(c) + json_escape(rest.drop_first()));
        }
        escape_char_x(&mut r, c);
        proof {
            assert(r@ + json_escape(rest.drop_first()) =~= r_old + json_escape(rest));
        }
        i = i + 1;
    }
    proof {
        assert(s@.subrange(n as int, n as int) =~= Seq::<char>::empty());
        assert(json_escape(s@) =~= r@);
    }
    r
}

/// The JSON body of the device-list request: one fixed page of ten.
pub fn list_body() -> (r: String)
    ensures
        r@ == "{\"pageNo\":1,\"pageSize\":10}"@,
{
    "{\"pageNo\":1,\"pageSize\":10}".to_owned()
}

/// The JSON body of a device-detail request for one device id.
pub fn detail_body(id: &str) -> (r: String)
    ensures
        r@ == "{\"id\":\""@ + json_escape(id@) + "\"}"@,
{
    let esc = json_escape_x(id);
    let mid = chars_to_string(&esc);
    let mut r = String::new();
    r.append("{\"id\":\"");
    r.append(mid.as_str());
    r.append("\"}");
    proof {
        assert(r@ =~= "{\"id\":\""@ + json_escape(id@) + "\"}"@);
    }
    r
}

/// The retained topic the raw detail record of a device is published to.
pub fn detail_topic(id: &str) -> (r: String)
    ensures
        r@ == "soliscloud/inverter/"@ + id@ + "/detail"@,
{
    let mut r = String::new();
    r.append("soliscloud/inverter/");
    r.append(id);
    r.append("/detail");
    proof {
        assert(r@ =~= "soliscloud/inverter/"@ + id@ + "/detail"@);
    }
    r
}

/// The retained topic one normalized field of a device is published to.
pub fn field_topic(id: &str, field: &str) -> (r: String)
    ensures
        r@ == "soliscloud/inverter/"@ + id@ + "/"@ + field@,
{
    let mut r = String::new();
    r.append("soliscloud/inverter/");
    r.append(id);
    r.append("/");
    r.append(field);
    proof {
        assert(r@ =~= "soliscloud/inverter/"@ + id@ + "/"@ + field@);
    }
    r
}

/// The configured base URL with every trailing slash removed.
pub open spec fn trim_slashes(s: Seq<char>) -> Seq<char>
    decreases s.len(),
{
    if s.len() > 0 && s[s.len() - 1] == '/' {
        trim_slashes(s.drop_last())
    } else {
        s
    }
}

proof fn lemma_trim_slashes_at(s: Seq<char>, i: int)
    requires
        0 <= i <= s.len(),
        forall|j: int| i <= j < s.len() ==> s[j] == '/',
        i == 0 || s[i - 1] != '/',
    ensures
        trim_slashes(s) == s.subrange(0, i),
    decreases s.len() - i,
{
    if i == s.len() {
        if s.len() == 0 {
            assert(s.subrange(0, 0) =~= s);
        } else {
            assert(s.subrange(0, s.len() as int) =~= s);
        }
    } else {
        assert(s[s.len() - 1] == '/');
        let t = s.drop_last();
        assert(forall|j: int| i <= j < t.len() ==> t[j] == s[j] && t[j] == '/');
        lemma_trim_slashes_at(t, i);
        assert(t.subrange(0, i) =~= s.subrange(0, i));
    }
}

/// Strips trailing slashes off the configured base URL.
pub fn trim_base_url(s: &str) -> (r: String)
    ensures
        r@ == trim_slashes(s@),
{
    let n = s.unicode_len();
    let mut i: usize = n;
    while i > 0 && s.get_char(i - 1) == '/'
        invariant
            n == s@.len(),
            i <= n,
            forall|j: int| i <= j < n ==> s@[j] == '/',
        decreases i,
    {
        i = i - 1;
    }
    proof {
        lemma_trim_slashes_at(s@, i as int);
    }
    s.substring_char(0, i).to_owned()
}

/// One assembled request: everything the transport needs to perform the
/// call.
pub struct ApiRequest {
    pub url: String,
    pub headers: SignedHeaders,
    pub body: String,
}

/// Assembles the signed request for one call: the URL is the base followed
/// by the path, the body travels as given, and the headers sign exactly
/// that body for that path at the timestamp in the `date` header.
pub fn build_api_request(creds: &Credentials, base: &str, path: &str, body: &str) -> (r:
    ApiRequest)
    requires
        creds.secret@.len() > 0,
        path@.len() > 0,
        path@[0] == '/',
    ensures
        r.url@ == base@ + path@,
        r.body@ == body@,
        r.headers.content_type@ == "application/json;charset=utf-8"@,
        r.headers.content_md5@ == content_hash_spec(encode_utf8(body@)),
        r.headers.authorization@ == auth_header_spec(
            creds.key@,
            creds.secret@,
            encode_utf8(body@),
            r.headers.date@,
            path@,
        ),
{
    let headers = sign(creds, path, body.as_bytes());
    let mut url = String::new();
    url.append(base);
    url.append(path);
    proof {
        assert(url@ =~= base@ + path@);
    }
    ApiRequest { url, headers, body: body.to_owned() }
}

} // verus!
