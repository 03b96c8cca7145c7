//! Signed, time-bounded bearer tokens: a base64url-encoded JSON header and
//! claims, joined by dots and signed with HMAC-SHA256 under a shared secret.
//! The claims codec and the token assembly and checking are verified; the
//! base64 encoding and the signature itself are trusted calls.

use vstd::prelude::*;
use crate::clock::now_clamped;
use crate::errors::{AuthError, TokenFault};
use crate::numeral::{
    append_dec, dec_rep, dec_val, digit_end, is_dec_digit, lemma_dec_rep_digits,
    lemma_dec_val_of_rep, lemma_digit_end_is, match_at, scan_dec, str_eq,
};

verus! {

use vstd::string::StrSliceExecFns;

/// The canonical URL-safe, padding-free base64 of the UTF-8 bytes of `text`.
pub uninterp spec fn b64url_of(text: Seq<char>) -> Seq<char>;

/// The URL-safe, padding-free base64 of the HMAC-SHA256 of the UTF-8 bytes
/// of `message` under `secret`.
pub uninterp spec fn hs256_tag(secret: Seq<u8>, message: Seq<char>) -> Seq<char>;

/// Relies on base64's URL_SAFE_NO_PAD engine: the result is the canonical
/// padding-free encoding of the UTF-8 bytes of `text`, and the encoding is
/// injective (its decode inverts it exactly).
#[verifier::external_body]
fn b64url_encode(text: &str) -> (r: String)
    ensures
        r@ == b64url_of(text@),
        forall|i: int| 0 <= i < r@.len() ==> r@[i] != '.',
        forall|x: Seq<char>| (#[trigger] b64url_of(x)) == r@ ==> x == text@,
{
    base64::Engine::encode(&base64::engine::general_purpose::URL_SAFE_NO_PAD, text.as_bytes())
}

/// Relies on base64's URL_SAFE alphabet: the sixty-four characters every
/// output of the encoder draws from; '.' is not among them.
#[verifier::external_body]
fn b64url_alphabet() -> (r: String)
    ensures
        forall|x: Seq<char>, i: int|
            0 <= i < b64url_of(x).len() ==> r@.contains(#[trigger] b64url_of(x)[i]),
        forall|j: int| 0 <= j < r@.len() ==> r@[j] != '.',
{
    base64::alphabet::URL_SAFE.as_str().to_owned()
}

/// Relies on base64's URL_SAFE_NO_PAD decode, which accepts exactly the
/// canonical padding-free encodings and rejects trailing bits, and on UTF-8
/// decoding: the result is the unique text whose encoding is the input.
#[verifier::external_body]
fn b64url_decode(text: &str) -> (r: Option<String>)
    ensures
        r matches Some(s) ==> b64url_of(s@) == text@ && (forall|x: Seq<char>|
            (#[trigger] b64url_of(x)) == text@ ==> x == s@),
        r is None ==> forall|x: Seq<char>| (#[trigger] b64url_of(x)) != text@,
{
    match base64::Engine::decode(
        &base64::engine::general_purpose::URL_SAFE_NO_PAD,
        text.as_bytes(),
    ) {
        Ok(bytes) => match String::from_utf8(bytes) {
            Ok(s) => Some(s),
            Err(_) => None,
        },
        Err(_) => None,
    }
}

/// Relies on jsonwebtoken's crypto::sign with HS256: the base64url-encoded
/// HMAC-SHA256 of the message bytes under the secret, a deterministic
/// function of the two. The call succeeds on every input: with this crate's
/// features the RustCrypto provider is compiled in (and nothing here installs
/// another), a key from EncodingKey::from_secret always carries the HMAC
/// family, the HMAC accepts keys of every length, and signing is infallible.
#[verifier::external_body]
fn hs256_sign(secret: &[u8], message: &str) -> (r: Result<String, AuthError>)
    ensures
        r is Ok,
        r matches Ok(t) ==> t@ == hs256_tag(secret@, message@),
{
    match jsonwebtoken::crypto::sign(
        message.as_bytes(),
        &jsonwebtoken::EncodingKey::from_secret(secret),
        jsonwebtoken::Algorithm::HS256,
    ) {
        Ok(t) => Ok(t),
        Err(_) => Err(AuthError::TokenError(TokenFault::Failure)),
    }
}

/// The signed payload of a token: subject identity and absolute expiration,
/// in seconds since the Unix epoch.
#[derive(Clone, Copy, Debug, PartialEq, Eq, Structural)]
pub struct Claims {
    pub sub: u128,
    pub exp: u64,
}

/// The canonical JSON text of the claims.
pub open spec fn claims_json(sub: u128, exp: u64) -> Seq<char> {
    "{\"sub\":"@ + dec_rep(sub as nat) + ",\"exp\":"@ + dec_rep(exp as nat) + "}"@
}

/// The JSON text of the fixed token header.
pub open spec fn header_json() -> Seq<char> {
    "{\"alg\":\"HS256\",\"typ\":\"JWT\"}"@
}

/// The part of a token that is signed: encoded header, dot, encoded claims.
pub open spec fn signing_input_of(sub: u128, exp: u64) -> Seq<char> {
    b64url_of(header_json()) + "."@ + b64url_of(claims_json(sub, exp))
}

/// The complete token for these claims under this secret.
pub open spec fn token_of(secret: Seq<u8>, sub: u128, exp: u64) -> Seq<char> {
    signing_input_of(sub, exp) + "."@ + hs256_tag(secret, signing_input_of(sub, exp))
}

fn header_str() -> (r: &'static str)
    ensures
        r@ == header_json(),
{
    "{\"alg\":\"HS256\",\"typ\":\"JWT\"}"
}

/// Builds the canonical JSON text of the claims.
fn claims_to_json(c: Claims) -> (r: String)
    ensures
        r@ == claims_json(c.sub, c.exp),
{
    let mut s = String::from_str("{\"sub\":");
    append_dec(c.sub, &mut s);
    s.append(",\"exp\":");
    append_dec(c.exp as u128, &mut s);
    s.append("}");
    proof {
        assert(s@ =~= claims_json(c.sub, c.exp));
    }
    s
}

/// How a canonical claims text decomposes around its two digit runs.
proof fn lemma_claims_json_shape(s: Seq<char>, sub: u128, exp: u64)
    requires
        s == claims_json(sub, exp),
    ensures
        ({
            let lb = dec_rep(sub as nat).len() as int;
            let ld = dec_rep(exp as nat).len() as int;
            &&& s.len() == 15 + lb + ld
            &&& 7 + lb <= s.len()
            &&& s.subrange(0, 7) == "{\"sub\":"@
            &&& is_dec_digit(s[7])
            &&& digit_end(s, 7) == 7 + lb
            &&& dec_val(s.subrange(7, 7 + lb)) == sub as nat
            &&& s.subrange(7 + lb, 14 + lb) == ",\"exp\":"@
            &&& is_dec_digit(s[14 + lb])
            &&& digit_end(s, 14 + lb) == 14 + lb + ld
            &&& dec_val(s.subrange(14 + lb, 14 + lb + ld)) == exp as nat
            &&& s.subrange(14 + lb + ld, 15 + lb + ld) == "}"@
        }),
{
    reveal_strlit("{\"sub\":");
    reveal_strlit(",\"exp\":");
    reveal_strlit("}");
    let a = "{\"sub\":"@;
    let b = dec_rep(sub as nat);
    let c = ",\"exp\":"@;
    let d = dec_rep(exp as nat);
    let e = "}"@;
    let lb = b.len() as int;
    let ld = d.len() as int;
    lemma_dec_rep_digits(sub as nat);
    lemma_dec_rep_digits(exp as nat);
    lemma_dec_val_of_rep(sub as nat);
    lemma_dec_val_of_rep(exp as nat);
    assert(s.len() == 15 + lb + ld);
    assert(s.subrange(0, 7) =~= a);
    assert(s.subrange(7, 7 + lb) =~= b);
    assert(s.subrange(7 + lb, 14 + lb) =~= c);
    assert(s.subrange(14 + lb, 14 + lb + ld) =~= d);
    assert(s.subrange(14 + lb + ld, 15 + lb + ld) =~= e);
    assert(is_dec_digit(s[7])) by {
        assert(s[7] == b[0]);
    }
    assert(s[7 + lb] == ',') by {
        assert(s[7 + lb] == c[0]);
    }
    assert(!is_dec_digit(s[7 + lb]));
    assert forall|k: int| 7 <= k < 7 + lb implies is_dec_digit(#[trigger] s[k]) by {
        assert(s[k] == b[k - 7]);
    }
    lemma_digit_end_is(s, 7, 7 + lb);
    assert(is_dec_digit(s[14 + lb])) by {
        assert(s[14 + lb] == d[0]);
    }
    assert forall|k: int| 14 + lb <= k < 14 + lb + ld implies is_dec_digit(#[trigger] s[k]) by {
        assert(s[k] == d[k - 14 - lb]);
    }
    if 14 + lb + ld < s.len() {
        assert(s[14 + lb + ld] == '}') by {
            assert(s[14 + lb + ld] == e[0]);
        }
        assert(!is_dec_digit(s[14 + lb + ld]));
    }
    lemma_digit_end_is(s, 14 + lb, 14 + lb + ld);
}

/// Parses a canonical claims text: exact literal pieces around two digit
/// runs, nothing before or after. Complete on every canonical text.
fn parse_claims(s: &str) -> (r: Option<Claims>)
    ensures
        forall|sub: u128, exp: u64| s@ == claims_json(sub, exp) ==> r == Some(
            Claims { sub, exp },
        ),
{
    proof {
        reveal_strlit("{\"sub\":");
        reveal_strlit(",\"exp\":");
        reveal_strlit("}");
    }
    let n = s.unicode_len();
    if !match_at(s, 0, "{\"sub\":") {
        proof {
            assert forall|sub: u128, exp: u64| s@ != claims_json(sub, exp) by {
                if s@ == claims_json(sub, exp) {
                    lemma_claims_json_shape(s@, sub, exp);
                }
            }
        }
        return None;
    }
    let scanned = scan_dec(s, 7);
    let (sub_v, p1) = match scanned {
        Some(x) => x,
        None => {
            proof {
                assert forall|sub: u128, exp: u64| s@ != claims_json(sub, exp) by {
                    if s@ == claims_json(sub, exp) {
                        lemma_claims_json_shape(s@, sub, exp);
                    }
                }
            }
            return None;
        },
    };
    proof {
        crate::numeral::lemma_digit_end_props(s@, 7);
    }
    if !match_at(s, p1, ",\"exp\":") {
        proof {
            assert forall|sub: u128, exp: u64| s@ != claims_json(sub, exp) by {
                if s@ == claims_json(sub, exp) {
                    lemma_claims_json_shape(s@, sub, exp);
                }
            }
        }
        return None;
    }
    let scanned2 = scan_dec(s, p1 + 7);
    let (exp_v, p2) = match scanned2 {
        Some(x) => x,
        None => {
            proof {
                assert forall|sub: u128, exp: u64| s@ != claims_json(sub, exp) by {
                    if s@ == claims_json(sub, exp) {
                        lemma_claims_json_shape(s@, sub, exp);
                        assert(digit_end(s@, p1 + 7) == digit_end(
                            s@,
                            14 + dec_rep(sub as nat).len() as int,
                        ));
                    }
                }
            }
            return None;
        },
    };
    proof {
        crate::numeral::lemma_digit_end_props(s@, p1 + 7);
    }
    if exp_v > u64::MAX as u128 {
        proof {
            assert forall|sub: u128, exp: u64| s@ != claims_json(sub, exp) by {
                if s@ == claims_json(sub, exp) {
                    lemma_claims_json_shape(s@, sub, exp);
                }
            }
        }
        return None;
    }
    if !(match_at(s, p2, "}") && n - p2 == 1) {
        proof {
            assert forall|sub: u128, exp: u64| s@ != claims_json(sub, exp) by {
                if s@ == claims_json(sub, exp) {
                    lemma_claims_json_shape(s@, sub, exp);
                    assert(s@.subrange(p2 as int, p2 + 1) == "}"@);
                }
            }
        }
        return None;
    }
    let out = Claims { sub: sub_v, exp: exp_v as u64 };
    proof {
        assert forall|sub: u128, exp: u64| s@ == claims_json(sub, exp) implies Some(out) == Some(
            Claims { sub, exp },
        ) by {
            lemma_claims_json_shape(s@, sub, exp);
            assert(sub_v as nat == sub as nat);
            assert(exp_v as nat == exp as nat);
        }
    }
    Some(out)
}

/// Builds, encodes and signs the token for subject `sub` expiring at `exp`.
/// Issuance is owed success: the signing path cannot fail.
pub fn issue_token_at(secret: &[u8], sub: u128, exp: u64) -> (r: Result<String, AuthError>)
    ensures
        r matches Ok(t) && t@ == token_of(secret@, sub, exp),
{
    let e1 = b64url_encode(header_str());
    let payload = claims_to_json(Claims { sub, exp });
    let e2 = b64url_encode(payload.as_str());
    let mut si = e1;
    si.append(".");
    si.append(e2.as_str());
    let tag = match hs256_sign(secret, si.as_str()) {
        Ok(t) => t,
        Err(e) => {
            return Err(e);
        },
    };
    proof {
        assert(si@ == signing_input_of(sub, exp));
    }
    let mut token = si;
    token.append(".");
    token.append(tag.as_str());
    proof {
        assert(token@ =~= token_of(secret@, sub, exp));
    }
    Ok(token)
}

/// The first '.' at or after `start`.
fn find_dot(s: &str, start: usize) -> (r: Option<usize>)
    requires
        start <= s@.len(),
    ensures
        r matches Some(p) ==> start <= p < s@.len() && s@[p as int] == '.' && (forall|k: int|
            start <= k < p ==> s@[k] != '.'),
        r is None ==> forall|k: int| start <= k < s@.len() ==> s@[k] != '.',
{
    let n = s.unicode_len();
    let mut k: usize = start;
    while k < n
        invariant
            start <= k <= n,
            n == s@.len(),
            forall|j: int| start <= j < k ==> s@[j] != '.',
        decreases n - k,
    {
        if s.get_char(k) == '.' {
            return Some(k);
        }
        k = k + 1;
    }
    None
}

/// How a text of the shape `a.b.c` with dot-free `a` and `b` decomposes.
proof fn lemma_three_part_split(t: Seq<char>, a: Seq<char>, b: Seq<char>, c: Seq<char>)
    requires
        t == a + "."@ + b + "."@ + c,
        forall|i: int| 0 <= i < a.len() ==> a[i] != '.',
        forall|i: int| 0 <= i < b.len() ==> b[i] != '.',
    ensures
        ({
            let la = a.len() as int;
            let lmid = b.len() as int;
            &&& t.len() == la + lmid + c.len() + 2
            &&& t[la] == '.'
            &&& t[la + 1 + lmid] == '.'
            &&& (forall|k: int| 0 <= k < la ==> t[k] != '.')
            &&& (forall|k: int| la + 1 <= k < la + 1 + lmid ==> t[k] != '.')
            &&& t.subrange(0, la) == a
            &&& t.subrange(la + 1, la + 1 + lmid) == b
            &&& t.subrange(la + 2 + lmid, t.len() as int) == c
        }),
{
    reveal_strlit(".");
    let la = a.len() as int;
    let lmid = b.len() as int;
    assert(t.len() == la + lmid + c.len() + 2);
    assert(t[la] == '.');
    assert(t[la + 1 + lmid] == '.');
    assert forall|k: int| 0 <= k < la implies t[k] != '.' by {
        assert(t[k] == a[k]);
    }
    assert forall|k: int| la + 1 <= k < la + 1 + lmid implies t[k] != '.' by {
        assert(t[k] == b[k - la - 1]);
    }
    assert(t.subrange(0, la) =~= a);
    assert(t.subrange(la + 1, la + 1 + lmid) =~= b);
    assert(t.subrange(la + 2 + lmid, t.len() as int) =~= c);
}

/// Decides whether `token` is the canonically signed encoding of some claims
/// under `secret`, not yet expired at `now`: a genuine token yields its
/// claims, or exactly `Expired` once its expiration has passed; anything
/// else yields exactly `Invalid`.
pub fn validate_token_at(secret: &[u8], token: &str, now: u64) -> (r: Result<Claims, AuthError>)
    ensures
        r matches Ok(c) ==> token@ == token_of(secret@, c.sub, c.exp) && now < c.exp,
        forall|sub: u128, exp: u64| token@ == token_of(secret@, sub, exp) ==> (match r {
            Ok(c) => c.sub == sub && c.exp == exp && now < exp,
            Err(e) => e == AuthError::TokenError(TokenFault::Expired) && exp <= now,
        }),
        (forall|sub: u128, exp: u64| token@ != token_of(secret@, sub, exp)) ==> r == Err::<
            Claims,
            AuthError,
        >(AuthError::TokenError(TokenFault::Invalid)),
        r matches Err(e) ==> e == AuthError::TokenError(TokenFault::Invalid) || e
            == AuthError::TokenError(TokenFault::Expired),
{
    let n = token.unicode_len();
    let e1c = b64url_encode(header_str());
    let alphabet = b64url_alphabet();
    proof {
        assert forall|x: Seq<char>, i: int| 0 <= i < b64url_of(x).len() implies (
        #[trigger] b64url_of(x)[i]) != '.' by {
            assert(alphabet@.contains(b64url_of(x)[i]));
            let j = choose|j: int| 0 <= j < alphabet@.len() && alphabet@[j] == b64url_of(x)[i];
            assert(alphabet@[j] != '.');
        }
    }
    let p1 = match find_dot(token, 0) {
        Some(p) => p,
        None => {
            proof {
                assert forall|sub: u128, exp: u64| token@ != token_of(secret@, sub, exp) by {
                    if token@ == token_of(secret@, sub, exp) {
                        lemma_three_part_split(
                            token@,
                            b64url_of(header_json()),
                            b64url_of(claims_json(sub, exp)),
                            hs256_tag(secret@, signing_input_of(sub, exp)),
                        );
                    }
                }
            }
            return Err(AuthError::TokenError(TokenFault::Invalid));
        },
    };
    let p2 = match find_dot(token, p1 + 1) {
        Some(p) => p,
        None => {
            proof {
                assert forall|sub: u128, exp: u64| token@ != token_of(secret@, sub, exp) by {
                    if token@ == token_of(secret@, sub, exp) {
                        lemma_three_part_split(
                            token@,
                            b64url_of(header_json()),
                            b64url_of(claims_json(sub, exp)),
                            hs256_tag(secret@, signing_input_of(sub, exp)),
                        );
                        assert(p1 == b64url_of(header_json()).len());
                    }
                }
            }
            return Err(AuthError::TokenError(TokenFault::Invalid));
        },
    };
    let e1 = token.substring_char(0, p1);
    let e2 = token.substring_char(p1 + 1, p2);
    let sig = token.substring_char(p2 + 1, n);
    proof {
        assert forall|sub: u128, exp: u64| token@ == token_of(secret@, sub, exp) implies e1@
            == b64url_of(header_json()) && e2@ == b64url_of(claims_json(sub, exp)) && sig@
            == hs256_tag(secret@, signing_input_of(sub, exp)) by {
            lemma_three_part_split(
                token@,
                b64url_of(header_json()),
                b64url_of(claims_json(sub, exp)),
                hs256_tag(secret@, signing_input_of(sub, exp)),
            );
            assert(p1 == b64url_of(header_json()).len());
            assert(p2 == p1 + 1 + b64url_of(claims_json(sub, exp)).len());
        }
    }
    if !str_eq(e1, e1c.as_str()) {
        return Err(AuthError::TokenError(TokenFault::Invalid));
    }
    let payload = match b64url_decode(e2) {
        Some(s) => s,
        None => {
            return Err(AuthError::TokenError(TokenFault::Invalid));
        },
    };
    let claims = match parse_claims(payload.as_str()) {
        Some(c) => c,
        None => {
            return Err(AuthError::TokenError(TokenFault::Invalid));
        },
    };
    proof {
        assert forall|sub: u128, exp: u64| token@ == token_of(secret@, sub, exp) implies claims
            == (Claims { sub, exp }) by {
            assert(b64url_of(claims_json(sub, exp)) == e2@);
            assert(payload@ == claims_json(sub, exp));
        }
    }
    let pj = claims_to_json(claims);
    let e2c = b64url_encode(pj.as_str());
    if !str_eq(e2, e2c.as_str()) {
        return Err(AuthError::TokenError(TokenFault::Invalid));
    }
    let mut si = String::from_str(e1);
    si.append(".");
    si.append(e2);
    let tag = match hs256_sign(secret, si.as_str()) {
        Ok(t) => t,
        Err(e) => {
            return Err(e);
        },
    };
    if !str_eq(sig, tag.as_str()) {
        proof {
            assert forall|sub: u128, exp: u64| token@ != token_of(secret@, sub, exp) by {
                if token@ == token_of(secret@, sub, exp) {
                    assert(si@ == signing_input_of(sub, exp));
                }
            }
        }
        return Err(AuthError::TokenError(TokenFault::Invalid));
    }
    proof {
        assert(token@ =~= si@ + "."@ + tag@) by {
            reveal_strlit(".");
        }
    }
    proof {
        assert(si@ == signing_input_of(claims.sub, claims.exp));
        assert(tag@ == hs256_tag(secret@, signing_input_of(claims.sub, claims.exp)));
        assert(token@ == token_of(secret@, claims.sub, claims.exp));
    }
    if claims.exp <= now {
        return Err(AuthError::TokenError(TokenFault::Expired));
    }
    Ok(claims)
}

/// Issues a token for this subject, expiring twenty-four hours after the
/// clock's reading (saturating at the top of the range), and owed success.
pub fn generate_token(secret: &[u8], user_id: u128) -> (r: Result<String, AuthError>)
    ensures
        r matches Ok(t) && (exists|exp: u64|
            t@ == token_of(secret@, user_id, exp) && exp >= 86400),
{
    let now = now_clamped();
    let exp: u64 = if now > u64::MAX - 86400 {
        u64::MAX
    } else {
        now + 86400
    };
    let r = issue_token_at(secret, user_id, exp);
    proof {
        assert(exp >= 86400);
        assert(r matches Ok(t) ==> t@ == token_of(secret@, user_id, exp));
        assert(r matches Ok(t) ==> exists|e: u64|
            t@ == token_of(secret@, user_id, e) && e >= 86400);
    }
    r
}

/// Validates a token against the clock: a genuine token yields its claims or
/// exactly `Expired`; anything else yields exactly `Invalid`.
pub fn validate_token(secret: &[u8], token: &str) -> (r: Result<Claims, AuthError>)
    ensures
        r matches Ok(c) ==> token@ == token_of(secret@, c.sub, c.exp),
        forall|sub: u128, exp: u64| token@ == token_of(secret@, sub, exp) ==> (match r {
            Ok(c) => c.sub == sub && c.exp == exp,
            Err(e) => e == AuthError::TokenError(TokenFault::Expired),
        }),
        (forall|sub: u128, exp: u64| token@ != token_of(secret@, sub, exp)) ==> r == Err::<
            Claims,
            AuthError,
        >(AuthError::TokenError(TokenFault::Invalid)),
        r matches Err(e) ==> e == AuthError::TokenError(TokenFault::Invalid) || e
            == AuthError::TokenError(TokenFault::Expired),
{
    let now = now_clamped();
    validate_token_at(secret, token, now)
}

} // verus!
