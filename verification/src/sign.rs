//! The request-signing protocol: every request carries a base64 MD5 content
//! hash, an RFC 2822 timestamp, and an HMAC-SHA1 signature over a canonical
//! string of fixed layout, proving possession of the shared secret.

use base64::Engine;
use hmac::Mac;
use vstd::prelude::*;
use vstd::utf8::encode_utf8;

use crate::chars::str_eq;

verus! {

/// What base64 (standard alphabet, with padding) returns for given bytes.
pub uninterp spec fn b64_of(bytes: Seq<u8>) -> Seq<char>;

/// What the MD5 digest of given bytes is.
pub uninterp spec fn md5_of(bytes: Seq<u8>) -> Seq<u8>;

/// What the HMAC-SHA1 tag of a message under a key is.
pub uninterp spec fn hmac_sha1_of(key: Seq<u8>, msg: Seq<u8>) -> Seq<u8>;

/// Relies on base64's `STANDARD` engine `encode`: the text is a function of
/// the input bytes alone.
#[verifier::external_body]
fn b64_encode(bytes: &[u8]) -> (r: String)
    ensures
        r@ == b64_of(bytes@),
{
    base64::engine::general_purpose::STANDARD.encode(bytes)
}

/// Relies on md5's `compute`: a sixteen-byte digest that is a function of
/// the input bytes alone.
#[verifier::external_body]
fn md5_digest(bytes: &[u8]) -> (r: Vec<u8>)
    ensures
        r@ == md5_of(bytes@),
        r@.len() == 16,
{
    md5::compute(bytes).0.to_vec()
}

/// Relies on hmac's `SimpleHmac` over sha1's `Sha1`: a twenty-byte tag that
/// is a function of key and message alone; HMAC accepts a key of any
/// length, so the construction cannot fail.
#[verifier::external_body]
fn hmac_sha1(key: &[u8], msg: &[u8]) -> (r: Vec<u8>)
    ensures
        r@ == hmac_sha1_of(key@, msg@),
        r@.len() == 20,
{
    let mut mac = <hmac::SimpleHmac<sha1::Sha1> as hmac::KeyInit>::new_from_slice(key).expect(
        "HMAC accepts keys of any length",
    );
    mac.update(msg);
    mac.finalize().into_bytes().to_vec()
}

/// Relies on chrono: the current UTC time as RFC 2822 text. The result
/// depends on the clock, so nothing is promised of it.
#[verifier::external_body]
fn now_rfc2822() -> (r: String) {
    chrono::Utc::now().to_rfc2822()
}

/// The fixed content type, sent as a header and signed in the canonical
/// string.
pub fn content_type() -> (r: &'static str)
    ensures
        r@ == "application/json;charset=utf-8"@,
{
    "application/json;charset=utf-8"
}

/// The canonical string a request is signed over: the method, the content
/// hash, the content type, the timestamp and the path, joined by single
/// newlines, in exactly this order.
pub open spec fn canonical_string(hash: Seq<char>, ts: Seq<char>, path: Seq<char>) -> Seq<char> {
    "POST\n"@ + hash + "\n"@ + "application/json;charset=utf-8"@ + "\n"@ + ts + "\n"@ + path
}

/// The `Content-MD5` header value: base64 of the MD5 of the body.
pub open spec fn content_hash_spec(body: Seq<u8>) -> Seq<char> {
    b64_of(md5_of(body))
}

/// The signature of a request: base64 of the HMAC-SHA1 tag of the canonical
/// string under the secret.
pub open spec fn signature_spec(
    secret: Seq<char>,
    hash: Seq<char>,
    ts: Seq<char>,
    path: Seq<char>,
) -> Seq<char> {
    b64_of(hmac_sha1_of(encode_utf8(secret), encode_utf8(canonical_string(hash, ts, path))))
}

/// Whether `sig` is the signature this scheme assigns to the given secret,
/// body, timestamp and path.
pub open spec fn sig_verifies(
    secret: Seq<char>,
    body: Seq<u8>,
    ts: Seq<char>,
    path: Seq<char>,
    sig: Seq<char>,
) -> bool {
    sig == signature_spec(secret, content_hash_spec(body), ts, path)
}

/// The `Authorization` header value.
pub open spec fn auth_header_spec(
    key: Seq<char>,
    secret: Seq<char>,
    body: Seq<u8>,
    ts: Seq<char>,
    path: Seq<char>,
) -> Seq<char> {
    "API "@ + key + ":"@ + signature_spec(secret, content_hash_spec(body), ts, path)
}

/// The immutable request credentials: the access key named in the
/// `Authorization` header and the shared secret the signature is computed
/// with.
pub struct Credentials {
    pub key: String,
    pub secret: String,
}

/// The four header values that authenticate one request.
pub struct SignedHeaders {
    pub content_type: String,
    pub date: String,
    pub authorization: String,
    pub content_md5: String,
}

/// Computes the signature for a body hash, timestamp and path.
fn compute_signature(secret: &str, hash: &str, timestamp: &str, path: &str) -> (r: String)
    ensures
        r@ == signature_spec(secret@, hash@, timestamp@, path@),
{
    let mut canon = String::new();
    canon.append("POST\n");
    canon.append(hash);
    canon.append("\n");
    canon.append("application/json;charset=utf-8");
    canon.append("\n");
    canon.append(timestamp);
    canon.append("\n");
    canon.append(path);
    proof {
        assert(canon@ =~= canonical_string(hash@, timestamp@, path@));
    }
    let tag = hmac_sha1(secret.as_bytes(), canon.as_str().as_bytes());
    b64_encode(tag.as_slice())
}

/// Signs one request at an explicit timestamp: hashes the body, builds the
/// canonical string, signs it, and returns the full header set.
pub fn sign_at(creds: &Credentials, path: &str, body: &[u8], timestamp: &str) -> (h: SignedHeaders)
    requires
        creds.secret@.len() > 0,
        path@.len() > 0,
        path@[0] == '/',
    ensures
        h.content_type@ == "application/json;charset=utf-8"@,
        h.date@ == timestamp@,
        h.content_md5@ == content_hash_spec(body@),
        h.authorization@ == auth_header_spec(creds.key@, creds.secret@, body@, timestamp@, path@),
{
    let digest = md5_digest(body);
    let hash = b64_encode(digest.as_slice());
    let sig = compute_signature(creds.secret.as_str(), hash.as_str(), timestamp, path);
    let mut auth = String::new();
    auth.append("API ");
    auth.append(creds.key.as_str());
    auth.append(":");
    auth.append(sig.as_str());
    proof {
        assert(auth@ =~= auth_header_spec(creds.key@, creds.secret@, body@, timestamp@, path@));
    }
    SignedHeaders {
        content_type: content_type().to_owned(),
        date: timestamp.to_owned(),
        authorization: auth,
        content_md5: hash,
    }
}

/// Signs one request at the current time; the timestamp used is the `date`
/// header of the result.
pub fn sign(creds: &Credentials, path: &str, body: &[u8]) -> (h: SignedHeaders)
    requires
        creds.secret@.len() > 0,
        path@.len() > 0,
        path@[0] == '/',
    ensures
        h.content_type@ == "application/json;charset=utf-8"@,
        h.content_md5@ == content_hash_spec(body@),
        h.authorization@ == auth_header_spec(creds.key@, creds.secret@, body@, h.date@, path@),
{
    let ts = now_rfc2822();
    sign_at(creds, path, body, ts.as_str())
}

/// Checks a signature against the one the scheme assigns to this secret,
/// body, timestamp and path.
pub fn verify_signature(
    creds: &Credentials,
    path: &str,
    body: &[u8],
    timestamp: &str,
    signature: &str,
) -> (r: bool)
    requires
        creds.secret@.len() > 0,
        path@.len() > 0,
        path@[0] == '/',
    ensures
        r == sig_verifies(creds.secret@, body@, timestamp@, path@, signature@),
{
    let digest = md5_digest(body);
    let hash = b64_encode(digest.as_slice());
    let expected = compute_signature(creds.secret.as_str(), hash.as_str(), timestamp, path);
    str_eq(expected.as_str(), signature)
}

/// Re-signing one body and path at two timestamps: each of the two
/// signatures verifies against its own timestamp under the same secret, and
/// if the timestamps differ, the canonical strings the two signatures are
/// computed over differ as well (signing is not idempotent by design; the
/// tags themselves differ whenever HMAC-SHA1 does not collide, which is
/// beyond what can be proved here).
pub proof fn lemma_resign(
    secret: Seq<char>,
    body: Seq<u8>,
    path: Seq<char>,
    t1: Seq<char>,
    t2: Seq<char>,
)
    ensures
        sig_verifies(
            secret,
            body,
            t1,
            path,
            signature_spec(secret, content_hash_spec(body), t1, path),
        ),
        sig_verifies(
            secret,
            body,
            t2,
            path,
            signature_spec(secret, content_hash_spec(body), t2, path),
        ),
        t1 != t2 ==> canonical_string(content_hash_spec(body), t1, path) != canonical_string(
            content_hash_spec(body),
            t2,
            path,
        ),
{
    if t1 != t2 {
        let h = content_hash_spec(body);
        let c1 = canonical_string(h, t1, path);
        let c2 = canonical_string(h, t2, path);
        let pre = "POST\n"@ + h + "\n"@ + "application/json;charset=utf-8"@ + "\n"@;
        assert(c1 =~= pre + t1 + "\n"@ + path);
        assert(c2 =~= pre + t2 + "\n"@ + path);
        if c1 == c2 {
            assert(c1.len() == pre.len() + t1.len() + "\n"@.len() + path.len());
            assert(c2.len() == pre.len() + t2.len() + "\n"@.len() + path.len());
            assert(t1.len() == t2.len());
            assert forall|q: int| 0 <= q < t1.len() implies t1[q] == t2[q] by {
                assert(c1[pre.len() + q] == t1[q]);
                assert(c2[pre.len() + q] == t2[q]);
            }
            assert(t1 =~= t2);
            assert(false);
        }
    }
}

} // verus!
