//! The Zaptec API: reading the OAuth token response and the installation
//! list, and building the `Authorization` header.

use crate::error::zaptec::{TokenResponseError, ZaptecError};
use crate::text::{
    chars_of, contains_pattern, decimal, find_char, find_first_containing, find_piece_containing,
    has_prefix, has_suffix, is_digit, is_whitespace, lemma_contains_at, lemma_decimal,
    lemma_find_first_containing_append, lemma_find_first_containing_bound, lemma_first_piece,
    lemma_split_append, lemma_parse_decimal, lemma_split_at_first, lemma_split_without_sep,
    lemma_trim_end_matches_once, lemma_trim_start_matches_once, lemma_trim_ws_fixed, parse_u64,
    parse_u64_in, pieces_left, skip_pattern_end, skip_pattern_start, split_on, str_from_utf8,
    trim_end_matches, trim_range, trim_start_matches, trim_ws,
};
use vstd::prelude::*;
use vstd::string::{StrSliceExecFns, StringSliceAdditionalSpecFns};
use vstd::utf8::{
    decode_utf8, encode_utf8, encode_utf8_decode_utf8, encode_utf8_valid_utf8, valid_utf8,
};

verus! {

/// The key that marks the token field of a token response.
pub const ACCESS_TOKEN_KEY: [char; 12] = ['a', 'c', 'c', 'e', 's', 's', '_', 't', 'o', 'k', 'e', 'n'];

/// `"access_token":"`, what precedes the token in its field.
pub const ACCESS_TOKEN_FIELD: [char; 16] = [
    '"', 'a', 'c', 'c', 'e', 's', 's', '_', 't', 'o', 'k', 'e', 'n', '"', ':', '"',
];

/// The key that marks the lifetime field of a token response.
pub const EXPIRES_IN_KEY: [char; 10] = ['e', 'x', 'p', 'i', 'r', 'e', 's', '_', 'i', 'n'];

/// `"expires_in":`, what precedes the lifetime in its field.
pub const EXPIRES_IN_FIELD: [char; 13] = [
    '"', 'e', 'x', 'p', 'i', 'r', 'e', 's', '_', 'i', 'n', '"', ':',
];

/// `{"Pages":1,"Data":[{"Id":"`, what precedes the first installation id.
pub const INSTALLATIONS_PREFIX: [char; 26] = [
    '{', '"', 'P', 'a', 'g', 'e', 's', '"', ':', '1', ',', '"', 'D', 'a', 't', 'a', '"', ':', '[',
    '{', '"', 'I', 'd', '"', ':', '"',
];

/// The comma-separated fields of a token response, once the enclosing braces
/// are stripped.
pub open spec fn token_response_fields(body: Seq<char>) -> Seq<Seq<char>> {
    split_on(trim_end_matches(trim_start_matches(body, seq!['{']), seq!['}']), ',')
}

/// The token that a token field holds.
pub open spec fn token_of_field(field: Seq<char>) -> Seq<char> {
    trim_ws(trim_end_matches(trim_start_matches(trim_ws(field), ACCESS_TOKEN_FIELD@), seq!['"']))
}

/// The text of the lifetime that a lifetime field holds.
pub open spec fn expires_in_of_field(field: Seq<char>) -> Seq<char> {
    trim_ws(trim_start_matches(trim_ws(field), EXPIRES_IN_FIELD@))
}

/// What a token response body yields: the token of the first field that
/// mentions `access_token`, and the lifetime in seconds of the first later
/// field that mentions `expires_in`.
pub open spec fn token_response(body: Seq<char>) -> Result<(Seq<char>, u64), TokenResponseError> {
    let fields = token_response_fields(body);
    match find_first_containing(fields, ACCESS_TOKEN_KEY@) {
        None => Err(TokenResponseError::NoTokenLine),
        Some(i) => {
            let rest = fields.skip(i + 1);
            match find_first_containing(rest, EXPIRES_IN_KEY@) {
                None => Err(TokenResponseError::NoExpiresLine),
                Some(j) => match parse_u64(expires_in_of_field(rest[j])) {
                    None => Err(TokenResponseError::MalformedExpiresLine),
                    Some(n) => Ok((token_of_field(fields[i]), n)),
                },
            }
        },
    }
}

/// The installation id at the head of an installation list: what follows
/// the list prefix, up to the first `"`.
pub open spec fn installation_id(body: Seq<char>) -> Seq<char> {
    split_on(trim_start_matches(body, INSTALLATIONS_PREFIX@), '"')[0]
}

/// Reads the access token and its lifetime in seconds out of the body of an
/// OAuth token response.
pub fn parse_token_response(response_body: &str) -> (r: Result<(&str, u64), ZaptecError>)
    ensures
        match token_response(response_body@) {
            Ok((token, n)) => r matches Ok((t, m)) && t@ == token && m == n,
            Err(e) => r == Err::<(&str, u64), ZaptecError>(ZaptecError::TokenResponse(e)),
        },
{
    let chars = chars_of(response_body);
    let len = chars.len();
    let open_brace: [char; 1] = ['{'];
    let close_brace: [char; 1] = ['}'];
    let quote: [char; 1] = ['"'];
    let lo = skip_pattern_start(&chars, 0, len, &open_brace);
    let hi = skip_pattern_end(&chars, lo, len, &close_brace);
    proof {
        assert(chars@.subrange(0, len as int) =~= response_body@);
        assert(open_brace@ =~= seq!['{']);
        assert(close_brace@ =~= seq!['}']);
        assert(quote@ =~= seq!['"']);
    }
    let ghost fields = token_response_fields(response_body@);
    assert(pieces_left(chars@, hi as int, Some(lo), ',') == fields);
    let (token_field, after) = find_piece_containing(&chars, hi, Some(lo), ',', &ACCESS_TOKEN_KEY);
    let (ta, tb) = match token_field {
        None => {
            return Err(ZaptecError::TokenResponse(TokenResponseError::NoTokenLine));
        },
        Some(bounds) => bounds,
    };
    let ghost i = find_first_containing(fields, ACCESS_TOKEN_KEY@)->0;
    let (expires_field, _) = find_piece_containing(&chars, hi, after, ',', &EXPIRES_IN_KEY);
    let (ea, eb) = match expires_field {
        None => {
            return Err(ZaptecError::TokenResponse(TokenResponseError::NoExpiresLine));
        },
        Some(bounds) => bounds,
    };
    let (ea1, eb1) = trim_range(&chars, ea, eb);
    let ea2 = skip_pattern_start(&chars, ea1, eb1, &EXPIRES_IN_FIELD);
    let (ea3, eb3) = trim_range(&chars, ea2, eb1);
    let expires_in = match parse_u64_in(&chars, ea3, eb3) {
        None => {
            return Err(ZaptecError::TokenResponse(TokenResponseError::MalformedExpiresLine));
        },
        Some(n) => n,
    };
    let (ta1, tb1) = trim_range(&chars, ta, tb);
    let ta2 = skip_pattern_start(&chars, ta1, tb1, &ACCESS_TOKEN_FIELD);
    let tb2 = skip_pattern_end(&chars, ta2, tb1, &quote);
    let (ta3, tb3) = trim_range(&chars, ta2, tb2);
    let token = response_body.substring_char(ta3, tb3);
    Ok((token, expires_in))
}

/// What a raw token response yields: nothing but `NotAString` unless the
/// bytes are UTF-8, and then what [`token_response`] reads from the text.
pub open spec fn token_response_bytes(body: Seq<u8>) -> Result<(Seq<char>, u64), TokenResponseError> {
    if valid_utf8(body) {
        token_response(decode_utf8(body))
    } else {
        Err(TokenResponseError::NotAString)
    }
}

/// Reads the access token and its lifetime out of the raw bytes of a token
/// response.
pub fn parse_token_body(response_body: &[u8]) -> (r: Result<(&str, u64), ZaptecError>)
    ensures
        match token_response_bytes(response_body@) {
            Ok((token, n)) => r matches Ok((t, m)) && t@ == token && m == n,
            Err(e) => r == Err::<(&str, u64), ZaptecError>(ZaptecError::TokenResponse(e)),
        },
{
    match str_from_utf8(response_body) {
        Err(e) => Err(ZaptecError::from(e)),
        Ok(text) => {
            proof {
                encode_utf8_decode_utf8(text@);
            }
            parse_token_response(text)
        },
    }
}

/// The id of the first installation in the text of an installation list.
pub fn installation_id_of(response_body: &str) -> (r: &str)
    ensures
        r@ == installation_id(response_body@),
{
    let chars = chars_of(response_body);
    let len = chars.len();
    let a = skip_pattern_start(&chars, 0, len, &INSTALLATIONS_PREFIX);
    let e = find_char(&chars, a, len, '"');
    proof {
        assert(chars@.subrange(0, len as int) =~= response_body@);
        lemma_first_piece(chars@, a as int, len as int, '"', e as int);
    }
    response_body.substring_char(a, e)
}

/// Reads the id of the first installation out of the raw bytes of an
/// installation list.
pub fn parse_installation_id(response_body: &[u8]) -> (r: Result<&str, ZaptecError>)
    ensures
        valid_utf8(response_body@) ==> (r matches Ok(id) && id@ == installation_id(
            decode_utf8(response_body@),
        )),
        !valid_utf8(response_body@) ==> r == Err::<&str, ZaptecError>(
            ZaptecError::TokenResponse(TokenResponseError::NotAString),
        ),
{
    match str_from_utf8(response_body) {
        Err(e) => Err(ZaptecError::from(e)),
        Ok(text) => {
            proof {
                encode_utf8_decode_utf8(text@);
            }
            Ok(installation_id_of(text))
        },
    }
}

/// `Bearer `, what precedes the token in an `Authorization` header.
pub const AUTH_HEADER_PREFIX: [u8; 7] = [66, 101, 97, 114, 101, 114, 32];

/// The bytes of the `Authorization` header value for a token.
pub open spec fn auth_header_value(token_bytes: Seq<u8>) -> Seq<u8> {
    AUTH_HEADER_PREFIX@ + token_bytes
}

/// `buf` once as much of `header` as fits has been copied to its front.
pub open spec fn header_written(buf: Seq<u8>, header: Seq<u8>) -> Seq<u8> {
    let n = if buf.len() < header.len() {
        buf.len()
    } else {
        header.len()
    };
    header.take(n as int) + buf.skip(n as int)
}

/// How many ticks of the `embassy-time` clock make up `secs` seconds, or
/// `None` when that number does not fit in a `u64`.
pub uninterp spec fn ticks_in_secs(secs: u64) -> Option<u64>;

/// `embassy_time::Instant::now`, as ticks since boot.  Nothing is claimed of
/// the value: it is the clock's reading.
#[verifier::external_body]
fn now_ticks() -> u64 {
    embassy_time::Instant::now().as_ticks()
}

/// `embassy_time::Duration::try_from_secs`, as a tick count: the duration's
/// ticks are a function of `secs` alone (the tick rate is fixed when the
/// crate is built), `None` when they overflow: `secs.checked_mul(TICK_HZ)`,
/// where one second is `TICK_HZ` ticks.
#[verifier::external_body]
fn duration_ticks_from_secs(secs: u64) -> (r: Option<u64>)
    ensures
        r == ticks_in_secs(secs),
        secs == 0 ==> r == Some(0u64),
        r == match ticks_in_secs(1) {
            Some(hz) => if secs * hz <= u64::MAX {
                Some((secs * hz) as u64)
            } else {
                None::<u64>
            },
            None => None::<u64>,
        },
{
    match embassy_time::Duration::try_from_secs(secs) {
        Some(d) => Some(d.as_ticks()),
        None => None,
    }
}

/// An access token and the clock reading at which it expires.
pub struct ZaptecToken {
    access_token: &'static str,
    expiration: u64,
}

impl ZaptecToken {
    /// The token's characters.
    pub closed spec fn token(&self) -> Seq<char> {
        self.access_token@
    }

    /// The tick of the `embassy-time` clock at which the token expires.
    pub closed spec fn expires_at(&self) -> u64 {
        self.expiration
    }

    /// The token.
    pub fn access_token(&self) -> (r: &'static str)
        ensures
            r@ == self.token(),
    {
        self.access_token
    }

    /// The tick of the `embassy-time` clock at which the token expires.
    pub fn expiration_ticks(&self) -> (r: u64)
        ensures
            r == self.expires_at(),
    {
        self.expiration
    }

    /// The bytes of the `Authorization` header value for this token.
    pub closed spec fn header_bytes(&self) -> Seq<u8> {
        auth_header_value(self.access_token.spec_bytes())
    }

    /// A token that expires `expires_in` seconds after the clock reading
    /// `now`; `None` when that instant does not fit the clock.
    pub fn new_at(token: &'static str, expires_in: u64, now: u64) -> (r: Option<Self>)
        ensures
            match ticks_in_secs(expires_in) {
                Some(d) => if now + d <= u64::MAX {
                    r matches Some(t) && t.token() == token@ && t.expires_at() == now + d
                        && t.header_bytes() == auth_header_value(token.spec_bytes())
                } else {
                    r is None
                },
                None => r is None,
            },
            expires_in == 0 ==> (r matches Some(t) && t.expires_at() == now),
            ticks_in_secs(1) matches Some(hz) ==> (if now + expires_in * hz <= u64::MAX {
                r matches Some(t) && t.expires_at() == now + expires_in * hz
            } else {
                r is None
            }),
    {
        match duration_ticks_from_secs(expires_in) {
            None => None,
            Some(d) => match now.checked_add(d) {
                None => None,
                Some(expiration) => Some(ZaptecToken { access_token: token, expiration }),
            },
        }
    }

    /// A token that expires `expires_in` seconds from now; `None` when that
    /// instant does not fit the clock.  Whether it fits depends on the clock
    /// reading, except for a lifetime of no ticks, which always fits.
    pub fn new(token: &'static str, expires_in: u64) -> (r: Option<Self>)
        ensures
            ticks_in_secs(expires_in) is None ==> r is None,
            ticks_in_secs(expires_in) == Some(0u64) ==> r is Some,
            expires_in == 0 ==> r is Some,
            r matches Some(t) ==> {
                &&& t.token() == token@
                &&& t.header_bytes() == auth_header_value(token.spec_bytes())
                &&& ticks_in_secs(expires_in) matches Some(d)
                &&& t.expires_at() >= d
            },
    {
        Self::new_at(token, expires_in, now_ticks())
    }

    /// Whether [`ZaptecToken::auth_header`] can hand `buf` back as text, that
    /// is, whether `buf` with the header copied in is UTF-8.
    pub fn auth_header_is_utf8(&self, buf: &[u8]) -> (b: bool)
        ensures
            b == valid_utf8(header_written(buf@, self.header_bytes())),
    {
        let mut copy: Vec<u8> = Vec::new();
        let mut i: usize = 0;
        while i < buf.len()
            invariant
                i <= buf@.len(),
                copy@ == buf@.take(i as int),
            decreases buf@.len() - i,
        {
            copy.push(buf[i]);
            assert(buf@.take(i + 1) =~= copy@);
            i = i + 1;
        }
        assert(buf@.take(buf@.len() as int) =~= buf@);
        self.write_header(copy.as_mut_slice());
        str_from_utf8(copy.as_slice()).is_ok()
    }

    /// Copies as much of the header value as fits to the front of `buf`.
    fn write_header(&self, buf: &mut [u8])
        ensures
            final(buf)@ == header_written(old(buf)@, self.header_bytes()),
    {
        let token_bytes = self.access_token.as_bytes();
        let ghost header = self.header_bytes();
        let len = buf.len();
        let n = if len <= 7 {
            len
        } else if len - 7 <= token_bytes.len() {
            len
        } else {
            7 + token_bytes.len()
        };
        assert(header.len() == 7 + token_bytes@.len());
        let mut i: usize = 0;
        while i < n
            invariant
                i <= n <= buf@.len(),
                len == buf@.len(),
                len == old(buf)@.len(),
                n == if len < header.len() { len as int } else { header.len() as int },
                header == AUTH_HEADER_PREFIX@ + token_bytes@,
                buf@ == header.take(i as int) + old(buf)@.skip(i as int),
            decreases n - i,
        {
            let byte = if i < 7 {
                AUTH_HEADER_PREFIX[i]
            } else {
                token_bytes[i - 7]
            };
            assert(byte == header[i as int]);
            let ghost prev = buf@;
            buf[i] = byte;
            assert(buf@ == prev.update(i as int, byte));
            assert(buf@ =~= header.take(i + 1) + old(buf)@.skip(i + 1));
            i = i + 1;
        }
    }

    /// Writes the `Authorization` header value, `Bearer ` and the token, to
    /// the front of `buf`, as much of it as fits, and gives back all of
    /// `buf` as text.
    pub fn auth_header<'a>(&'a self, buf: &'a mut [u8]) -> (r: &'a str)
        requires
            valid_utf8(header_written(old(buf)@, self.header_bytes())),
        ensures
            final(buf)@ == header_written(old(buf)@, self.header_bytes()),
            r.spec_bytes() == final(buf)@,
    {
        self.write_header(buf);
        match str_from_utf8(buf) {
            Ok(text) => text,
            Err(_) => {
                proof {
                    assert(false);
                }
                ""
            },
        }
    }
}

/// The field that carries a token: `"access_token":"<token>"`.
pub open spec fn token_field(token: Seq<char>) -> Seq<char> {
    ACCESS_TOKEN_FIELD@ + token + seq!['"']
}

/// The field that carries a lifetime: `"expires_in":<n>`.
pub open spec fn expires_field(expires_in: u64) -> Seq<char> {
    EXPIRES_IN_FIELD@ + decimal(expires_in as nat)
}

/// The body of a token response that carries `token` and a lifetime of
/// `expires_in` seconds: `{"access_token":"<token>","expires_in":<n>}`.
pub open spec fn token_response_json(token: Seq<char>, expires_in: u64) -> Seq<char> {
    seq!['{'] + token_field(token) + seq![','] + expires_field(expires_in) + seq!['}']
}

/// A token that a response can carry verbatim: no quote or comma in it and
/// no whitespace at either end.
pub open spec fn plain_token(token: Seq<char>) -> bool {
    &&& forall|i: int| 0 <= i < token.len() ==> token[i] != '"' && token[i] != ','
    &&& token.len() > 0 ==> !is_whitespace(token[0]) && !is_whitespace(token.last())
}

/// The fields of a token response are its token field and its lifetime
/// field.
proof fn lemma_token_json_fields(token: Seq<char>, expires_in: u64)
    requires
        plain_token(token),
    ensures
        token_response_fields(token_response_json(token, expires_in)) == seq![
            token_field(token),
            expires_field(expires_in),
        ],
{
    let a = ACCESS_TOKEN_FIELD@;
    let e = EXPIRES_IN_FIELD@;
    let d = decimal(expires_in as nat);
    lemma_decimal(expires_in as nat);
    let f0 = token_field(token);
    let f1 = expires_field(expires_in);
    let s2 = f0 + seq![','] + f1;
    let s1 = s2 + seq!['}'];
    assert(token_response_json(token, expires_in) =~= seq!['{'] + s1);
    assert(!has_prefix(s1, seq!['{'])) by {
        assert(s1.take(1)[0] == s1[0]);
    }
    lemma_trim_start_matches_once(seq!['{'], s1);
    assert(!has_suffix(s2, seq!['}'])) by {
        assert(s2.last() == d.last());
        assert(is_digit(d[d.len() - 1]));
        assert(s2.skip(s2.len() - 1)[0] == s2.last());
    }
    lemma_trim_end_matches_once(s2, seq!['}']);
    assert forall|k: int| 0 <= k < f0.len() implies s2[k] != ',' by {
        assert(s2[k] == f0[k]);
        if a.len() <= k < a.len() + token.len() {
            assert(f0[k] == token[k - a.len()]);
        }
    }
    assert(s2[f0.len() as int] == ',');
    lemma_split_at_first(s2, ',', f0.len() as int);
    assert(s2.take(f0.len() as int) =~= f0);
    assert(s2.skip(f0.len() as int + 1) =~= f1);
    assert forall|k: int| 0 <= k < f1.len() implies f1[k] != ',' by {
        if k >= e.len() {
            assert(f1[k] == d[k - e.len()]);
            assert(is_digit(d[k - e.len()]));
        }
    }
    lemma_split_without_sep(f1, ',');
}

/// The lifetime field mentions `expires_in` and holds the decimal lifetime.
proof fn lemma_expires_field(expires_in: u64)
    ensures
        contains_pattern(expires_field(expires_in), EXPIRES_IN_KEY@),
        expires_in_of_field(expires_field(expires_in)) == decimal(expires_in as nat),
{
    let e = EXPIRES_IN_FIELD@;
    let d = decimal(expires_in as nat);
    let f1 = expires_field(expires_in);
    lemma_decimal(expires_in as nat);
    assert(f1.subrange(1, 11) =~= EXPIRES_IN_KEY@);
    lemma_contains_at(f1, EXPIRES_IN_KEY@, 1);
    assert(f1.last() == d.last());
    assert(is_digit(d[d.len() - 1]));
    lemma_trim_ws_fixed(f1);
    assert(is_digit(d[0]));
    assert(!has_prefix(d, e)) by {
        if e.len() <= d.len() {
            assert(d.take(e.len() as int)[0] == d[0]);
        }
    }
    lemma_trim_start_matches_once(e, d);
    lemma_trim_ws_fixed(d);
}

/// The token field mentions `access_token` and holds the token.
proof fn lemma_token_field(token: Seq<char>)
    requires
        plain_token(token),
    ensures
        contains_pattern(token_field(token), ACCESS_TOKEN_KEY@),
        token_of_field(token_field(token)) == token,
{
    let a = ACCESS_TOKEN_FIELD@;
    let f0 = token_field(token);
    assert(f0.subrange(1, 13) =~= ACCESS_TOKEN_KEY@);
    lemma_contains_at(f0, ACCESS_TOKEN_KEY@, 1);
    assert(f0[0] == '"');
    assert(f0.last() == '"');
    lemma_trim_ws_fixed(f0);
    let tq = token + seq!['"'];
    assert(f0 =~= a + tq);
    assert(!has_prefix(tq, a)) by {
        if a.len() <= tq.len() {
            assert(tq.take(a.len() as int)[0] == tq[0]);
            if token.len() > 0 {
                assert(tq[0] == token[0]);
            }
        }
    }
    lemma_trim_start_matches_once(a, tq);
    assert(!has_suffix(token, seq!['"'])) by {
        if token.len() >= 1 {
            assert(token.skip(token.len() - 1)[0] == token[token.len() - 1]);
        }
    }
    lemma_trim_end_matches_once(token, seq!['"']);
    lemma_trim_ws_fixed(token);
}

/// A token response read back gives the token and lifetime it was built
/// from.
pub proof fn law_token_response_roundtrip(token: Seq<char>, expires_in: u64)
    requires
        plain_token(token),
    ensures
        token_response(token_response_json(token, expires_in)) == Ok::<
            (Seq<char>, u64),
            TokenResponseError,
        >((token, expires_in)),
{
    let fields = token_response_fields(token_response_json(token, expires_in));
    lemma_token_json_fields(token, expires_in);
    lemma_token_field(token);
    lemma_expires_field(expires_in);
    lemma_parse_decimal(expires_in);
    assert(find_first_containing(fields, ACCESS_TOKEN_KEY@) == Some(0int));
    let rest = fields.skip(1);
    assert(rest =~= seq![expires_field(expires_in)]);
    assert(find_first_containing(rest, EXPIRES_IN_KEY@) == Some(0int));
}

/// An installation list that starts with the list prefix, then `id` and a
/// closing quote.
pub open spec fn installation_list_json(id: Seq<char>, rest: Seq<char>) -> Seq<char> {
    INSTALLATIONS_PREFIX@ + id + seq!['"'] + rest
}

/// The id of the first installation is read back from a list that starts
/// with it, whatever follows, provided the id holds no quote and does not
/// start with `{`.
pub proof fn law_installation_id_roundtrip(id: Seq<char>, rest: Seq<char>)
    requires
        forall|i: int| 0 <= i < id.len() ==> id[i] != '"',
        id.len() > 0 ==> id[0] != '{',
    ensures
        installation_id(installation_list_json(id, rest)) == id,
{
    let p = INSTALLATIONS_PREFIX@;
    let tail = id + seq!['"'] + rest;
    assert(installation_list_json(id, rest) =~= p + tail);
    assert(!has_prefix(tail, p)) by {
        if p.len() <= tail.len() {
            assert(tail.take(p.len() as int)[0] == tail[0]);
            if id.len() > 0 {
                assert(tail[0] == id[0]);
            } else {
                assert(tail[0] == '"');
            }
        }
    }
    lemma_trim_start_matches_once(p, tail);
    assert(tail[id.len() as int] == '"');
    assert forall|k: int| 0 <= k < id.len() implies tail[k] != '"' by {
        assert(tail[k] == id[k]);
    }
    lemma_split_at_first(tail, '"', id.len() as int);
    assert(tail.take(id.len() as int) =~= id);
}

/// The raw bytes of a token response read back give the token and lifetime
/// it was built from.
pub proof fn law_token_body_roundtrip(token: Seq<char>, expires_in: u64)
    requires
        plain_token(token),
    ensures
        token_response_bytes(encode_utf8(token_response_json(token, expires_in))) == Ok::<
            (Seq<char>, u64),
            TokenResponseError,
        >((token, expires_in)),
{
    let json = token_response_json(token, expires_in);
    encode_utf8_valid_utf8(json);
    encode_utf8_decode_utf8(json);
    law_token_response_roundtrip(token, expires_in);
}

/// When the buffer can hold the whole header, its front is the header and
/// the rest of it is left as it was.
pub proof fn law_auth_header_complete(buf: Seq<u8>, header: Seq<u8>)
    requires
        header.len() <= buf.len(),
    ensures
        header_written(buf, header).len() == buf.len(),
        header_written(buf, header).take(header.len() as int) == header,
        header_written(buf, header).skip(header.len() as int) == buf.skip(header.len() as int),
{
    let w = header_written(buf, header);
    assert(header.take(header.len() as int) =~= header);
    assert(w.take(header.len() as int) =~= header);
    assert(w.skip(header.len() as int) =~= buf.skip(header.len() as int));
}

/// A field with neither key, added at the end of a token response, changes
/// neither the token and lifetime read from it nor the error.
pub proof fn law_extra_trailing_field(fields: Seq<char>, extra: Seq<char>)
    requires
        !has_prefix(fields, seq!['{']),
        !has_suffix(fields, seq!['}']),
        !has_suffix(extra, seq!['}']),
        forall|i: int| 0 <= i < extra.len() ==> extra[i] != ',',
        !contains_pattern(extra, ACCESS_TOKEN_KEY@),
        !contains_pattern(extra, EXPIRES_IN_KEY@),
    ensures
        token_response(seq!['{'] + fields + seq![','] + extra + seq!['}']) == token_response(
            seq!['{'] + fields + seq!['}'],
        ),
{
    let b1 = seq!['{'] + fields + seq!['}'];
    let b2 = seq!['{'] + fields + seq![','] + extra + seq!['}'];
    let inner2 = fields + seq![','] + extra;
    // The braces come off both bodies.
    assert(b1 =~= seq!['{'] + (fields + seq!['}']));
    assert(!has_prefix(fields + seq!['}'], seq!['{'])) by {
        let t = fields + seq!['}'];
        if has_prefix(t, seq!['{']) {
            assert(t.take(1)[0] == '{');
            assert(t[0] == '{');
            if fields.len() > 0 {
                assert(t[0] == fields[0]);
                assert(fields.take(1) =~= seq!['{']);
            }
        }
    }
    lemma_trim_start_matches_once(seq!['{'], fields + seq!['}']);
    lemma_trim_end_matches_once(fields, seq!['}']);
    assert(b2 =~= seq!['{'] + (inner2 + seq!['}']));
    assert(!has_prefix(inner2 + seq!['}'], seq!['{'])) by {
        let t = inner2 + seq!['}'];
        if has_prefix(t, seq!['{']) {
            assert(t.take(1)[0] == '{');
            assert(t[0] == '{');
            if fields.len() > 0 {
                assert(t[0] == fields[0]);
                assert(fields.take(1) =~= seq!['{']);
            } else {
                assert(t[0] == ',');
            }
        }
    }
    lemma_trim_start_matches_once(seq!['{'], inner2 + seq!['}']);
    assert(!has_suffix(inner2, seq!['}'])) by {
        if has_suffix(inner2, seq!['}']) {
            assert(inner2.skip(inner2.len() - 1)[0] == '}');
            assert(inner2.last() == '}');
            if extra.len() > 0 {
                assert(inner2.last() == extra.last());
                assert(extra.skip(extra.len() - 1) =~= seq!['}']);
            } else {
                assert(inner2.last() == ',');
            }
        }
    }
    lemma_trim_end_matches_once(inner2, seq!['}']);
    // The fields are those of the shorter body and the extra one.
    lemma_split_append(fields, ',', extra);
    let f1 = token_response_fields(b1);
    let f2 = token_response_fields(b2);
    assert(f2 == f1 + seq![extra]);
    lemma_find_first_containing_append(f1, extra, ACCESS_TOKEN_KEY@);
    lemma_find_first_containing_bound(f1, ACCESS_TOKEN_KEY@);
    match find_first_containing(f1, ACCESS_TOKEN_KEY@) {
        None => {},
        Some(i) => {
            let rest1 = f1.skip(i + 1);
            assert(f2.skip(i + 1) =~= rest1 + seq![extra]);
            assert(f2[i] == f1[i]);
            lemma_find_first_containing_append(rest1, extra, EXPIRES_IN_KEY@);
            lemma_find_first_containing_bound(rest1, EXPIRES_IN_KEY@);
            match find_first_containing(rest1, EXPIRES_IN_KEY@) {
                None => {},
                Some(j) => {
                    assert(f2.skip(i + 1)[j] == rest1[j]);
                },
            }
        },
    }
}

/// A field with neither key, added at the front of a token response,
/// changes neither the token and lifetime read from it nor the error: the
/// token comes from the field that mentions `access_token`, wherever it
/// stands.
pub proof fn law_extra_leading_field(extra: Seq<char>, fields: Seq<char>)
    requires
        !has_prefix(extra, seq!['{']),
        !has_prefix(fields, seq!['{']),
        !has_suffix(fields, seq!['}']),
        forall|i: int| 0 <= i < extra.len() ==> extra[i] != ',',
        !contains_pattern(extra, ACCESS_TOKEN_KEY@),
        !contains_pattern(extra, EXPIRES_IN_KEY@),
    ensures
        token_response(seq!['{'] + extra + seq![','] + fields + seq!['}']) == token_response(
            seq!['{'] + fields + seq!['}'],
        ),
{
    let b1 = seq!['{'] + fields + seq!['}'];
    let b2 = seq!['{'] + extra + seq![','] + fields + seq!['}'];
    let inner2 = extra + seq![','] + fields;
    // The braces come off both bodies.
    assert(b1 =~= seq!['{'] + (fields + seq!['}']));
    assert(!has_prefix(fields + seq!['}'], seq!['{'])) by {
        let t = fields + seq!['}'];
        if has_prefix(t, seq!['{']) {
            assert(t.take(1)[0] == '{');
            assert(t[0] == '{');
            if fields.len() > 0 {
                assert(t[0] == fields[0]);
                assert(fields.take(1) =~= seq!['{']);
            }
        }
    }
    lemma_trim_start_matches_once(seq!['{'], fields + seq!['}']);
    lemma_trim_end_matches_once(fields, seq!['}']);
    assert(b2 =~= seq!['{'] + (inner2 + seq!['}']));
    assert(!has_prefix(inner2 + seq!['}'], seq!['{'])) by {
        let t = inner2 + seq!['}'];
        if has_prefix(t, seq!['{']) {
            assert(t.take(1)[0] == '{');
            assert(t[0] == '{');
            if extra.len() > 0 {
                assert(t[0] == extra[0]);
                assert(extra.take(1) =~= seq!['{']);
            } else {
                assert(t[0] == ',');
            }
        }
    }
    lemma_trim_start_matches_once(seq!['{'], inner2 + seq!['}']);
    assert(!has_suffix(inner2, seq!['}'])) by {
        if has_suffix(inner2, seq!['}']) {
            assert(inner2.skip(inner2.len() - 1)[0] == '}');
            assert(inner2.last() == '}');
            if fields.len() > 0 {
                assert(inner2.last() == fields.last());
                assert(fields.skip(fields.len() - 1) =~= seq!['}']);
            } else {
                assert(inner2.last() == ',');
            }
        }
    }
    lemma_trim_end_matches_once(inner2, seq!['}']);
    // The fields are the extra one and those of the shorter body.
    assert(inner2[extra.len() as int] == ',');
    assert forall|k: int| 0 <= k < extra.len() implies inner2[k] != ',' by {
        assert(inner2[k] == extra[k]);
    }
    lemma_split_at_first(inner2, ',', extra.len() as int);
    assert(inner2.take(extra.len() as int) =~= extra);
    assert(inner2.skip(extra.len() as int + 1) =~= fields);
    let f1 = token_response_fields(b1);
    let f2 = token_response_fields(b2);
    assert(f2 == seq![extra] + f1);
    assert(f2.drop_first() =~= f1);
    assert(f2[0] == extra);
    match find_first_containing(f1, ACCESS_TOKEN_KEY@) {
        None => {},
        Some(i) => {
            assert(find_first_containing(f2, ACCESS_TOKEN_KEY@) == Some(i + 1));
            lemma_find_first_containing_bound(f1, ACCESS_TOKEN_KEY@);
            assert(f2.skip(i + 2) =~= f1.skip(i + 1));
            assert(f2[i + 1] == f1[i]);
        },
    }
}

/// The token is read from the field that mentions `access_token`, not from
/// a field with neither key that stands before it.
pub proof fn law_token_after_leading_field(lead: Seq<char>, token: Seq<char>, expires_in: u64)
    requires
        !has_prefix(lead, seq!['{']),
        forall|i: int| 0 <= i < lead.len() ==> lead[i] != ',',
        !contains_pattern(lead, ACCESS_TOKEN_KEY@),
        !contains_pattern(lead, EXPIRES_IN_KEY@),
        plain_token(token),
    ensures
        token_response(
            seq!['{'] + lead + seq![','] + token_field(token) + seq![','] + expires_field(
                expires_in,
            ) + seq!['}'],
        ) == Ok::<(Seq<char>, u64), TokenResponseError>((token, expires_in)),
{
    let fields = token_field(token) + seq![','] + expires_field(expires_in);
    let d = decimal(expires_in as nat);
    lemma_decimal(expires_in as nat);
    assert(!has_prefix(fields, seq!['{'])) by {
        assert(fields.take(1)[0] == fields[0]);
        assert(fields[0] == '"');
    }
    assert(!has_suffix(fields, seq!['}'])) by {
        assert(fields.last() == d.last());
        assert(is_digit(d[d.len() - 1]));
        assert(fields.skip(fields.len() - 1)[0] == fields.last());
    }
    law_extra_leading_field(lead, fields);
    assert(seq!['{'] + lead + seq![','] + token_field(token) + seq![','] + expires_field(expires_in)
        + seq!['}'] =~= seq!['{'] + lead + seq![','] + fields + seq!['}']);
    assert(seq!['{'] + fields + seq!['}'] =~= token_response_json(token, expires_in));
    law_token_response_roundtrip(token, expires_in);
}

} // verus!
