//! Authorization: Paseto v4.local tokens that are bound to a destination and
//! expire.
use rusty_paseto::prelude::{
    CustomClaim, ExpirationClaim, Key, Local, PasetoClaimError, PasetoParser, PasetoSymmetricKey,
    V4,
};
use vstd::prelude::*;

use crate::config::{AuthMode, SecretKey};
use crate::text;
use crate::time::Duration;

verus! {

/// The HTTP status of a refusal.
#[derive(Debug, Clone, Copy, PartialEq, Eq, Structural)]
pub enum Status {
    BadRequest,
    Unauthorized,
    Forbidden,
    TooManyRequests,
    InternalServerError,
    BadGateway,
    ServiceUnavailable,
}

impl Status {
    /// The number of the status.
    pub open spec fn number(self) -> u16 {
        match self {
            Status::BadRequest => 400,
            Status::Unauthorized => 401,
            Status::Forbidden => 403,
            Status::TooManyRequests => 429,
            Status::InternalServerError => 500,
            Status::BadGateway => 502,
            Status::ServiceUnavailable => 503,
        }
    }

    /// The number of the status.
    pub fn as_u16(&self) -> (r: u16)
        ensures
            r == self.number(),
    {
        match self {
            Status::BadRequest => 400,
            Status::Unauthorized => 401,
            Status::Forbidden => 403,
            Status::TooManyRequests => 429,
            Status::InternalServerError => 500,
            Status::BadGateway => 502,
            Status::ServiceUnavailable => 503,
        }
    }
}

/// A moment of wall-clock time: the seconds since 1970 in UTC, and nanoseconds
/// beyond them. A leap second has a thousand million nanoseconds or more.
#[derive(Debug, Clone, Copy, PartialEq, Eq, Structural)]
pub struct Moment {
    pub secs: i64,
    pub nanos: u32,
}

/// The first second after the year 9999.
pub const CALENDAR_END: i64 = 253_402_300_800;

impl Moment {
    /// The nanoseconds since 1970.
    pub open spec fn total(self) -> int {
        self.secs * 1_000_000_000 + self.nanos
    }

    /// Whether it is a moment of the years 1970 to 9999, outside leap seconds.
    pub open spec fn is_plain(self) -> bool {
        0 <= self.secs < CALENDAR_END && self.nanos < 1_000_000_000
    }

    /// Whether the moment comes after `other`.
    pub open spec fn after(self, other: Moment) -> bool {
        self.secs > other.secs || (self.secs == other.secs && self.nanos > other.nanos)
    }

    /// Whether the moment comes after `other`.
    pub fn is_after(&self, other: Moment) -> (r: bool)
        ensures
            r == self.after(other),
    {
        self.secs > other.secs || (self.secs == other.secs && self.nanos > other.nanos)
    }
}

/// A span between moments: seconds and nanoseconds, of the same sign.
#[derive(Debug, Clone, Copy, PartialEq, Eq, Structural)]
pub struct Span {
    pub secs: i64,
    pub nanos: i32,
}

impl Span {
    /// The span in nanoseconds.
    pub open spec fn total(self) -> int {
        self.secs * 1_000_000_000 + self.nanos
    }
}

/// The moment that a text writes in the format of RFC 3339.
pub uninterp spec fn rfc3339_moment(s: Seq<char>) -> Option<Moment>;

/// The span from the second moment to the first, if both are moments of the
/// calendar. Each is given by its seconds and its nanoseconds.
pub uninterp spec fn calendar_span(
    secs: i64,
    nanos: u32,
    from_secs: i64,
    from_nanos: u32,
) -> Option<Span>;

/// `chrono::DateTime::parse_from_rfc3339`: the moment that `s` writes. Which texts
/// it reads, and as what, is left to the name.
#[verifier::external_body]
fn parse_rfc3339(s: &str) -> (r: Option<Moment>)
    ensures
        r == rfc3339_moment(s@),
{
    match chrono::DateTime::parse_from_rfc3339(s) {
        Ok(t) => Some(Moment { secs: t.timestamp(), nanos: t.timestamp_subsec_nanos() }),
        Err(_) => None,
    }
}

/// `chrono::Utc::now`. Nothing is said of what it reads.
#[verifier::external_body]
fn utc_now() -> Moment {
    let t = chrono::Utc::now();
    Moment { secs: t.timestamp(), nanos: t.timestamp_subsec_nanos() }
}

/// `chrono::DateTime::signed_duration_since`. Between moments of the years 1970 to
/// 9999 there is a span, and between moments outside leap seconds it is their
/// difference; what leap seconds add is left to the name.
#[verifier::external_body]
fn span_since(then: Moment, from: Moment) -> (r: Option<Span>)
    ensures
        r == calendar_span(then.secs, then.nanos, from.secs, from.nanos),
        then.nanos < 1_000_000_000 && from.nanos < 1_000_000_000 ==> (r matches Some(d)
            ==> d.total() == (then.secs - from.secs) * 1_000_000_000 + then.nanos - from.nanos),
        0 <= then.secs <= 253_402_300_799 && then.nanos < 1_000_000_000 && 0 <= from.secs
            <= 253_402_300_799 && from.nanos < 1_000_000_000 ==> r is Some,
{
    let a = chrono::DateTime::from_timestamp(then.secs, then.nanos)?;
    let b = chrono::DateTime::from_timestamp(from.secs, from.nanos)?;
    let d = a.signed_duration_since(b);
    Some(Span { secs: d.num_seconds(), nanos: d.subsec_nanos() })
}

/// Why an expiry is not accepted.
#[derive(Debug, Clone, Copy, PartialEq, Eq, Structural)]
pub enum ExpiryError {
    /// There is none, or it has passed.
    Expired,
    /// It is not a date.
    NotADate,
}

/// The answer to an expiry that writes the moment `then`, at the moment `now`: a
/// token must expire, and later than now.
pub open spec fn expiry_verdict(exp: Seq<char>, then: Option<Moment>, now: Moment) -> Result<
    (),
    ExpiryError,
> {
    if exp.len() == 0 {
        Err(ExpiryError::Expired)
    } else {
        match then {
            None => Err(ExpiryError::NotADate),
            Some(t) => if t.after(now) {
                Ok(())
            } else {
                Err(ExpiryError::Expired)
            },
        }
    }
}

/// Whether an expiry is accepted at some moment: it is a date that lies after it.
pub open spec fn unexpired_once(exp: Seq<char>) -> bool {
    exists|now: Moment| #[trigger] expiry_verdict(exp, rfc3339_moment(exp), now) is Ok
}

/// Decides on an expiry that writes the moment `then`, at the moment `now`.
pub fn judge_expiry(exp: &str, then: Option<Moment>, now: Moment) -> (r: Result<(), ExpiryError>)
    ensures
        r == expiry_verdict(exp@, then, now),
{
    // Non-expiring tokens are not permitted.
    if exp.is_empty() {
        return Err(ExpiryError::Expired);
    }
    match then {
        None => Err(ExpiryError::NotADate),
        Some(t) => if t.is_after(now) {
            Ok(())
        } else {
            Err(ExpiryError::Expired)
        },
    }
}

/// Whether the clock gives `now`: the outcomes of reading it, of which nothing more
/// is known.
pub closed spec fn clock_gives(now: Moment) -> bool {
    call_ensures(utc_now, (), now)
}

/// Decides on an expiry now.
pub fn check_expiry(exp: &str) -> (r: Result<(), ExpiryError>)
    ensures
        exists|now: Moment| #[trigger]
            clock_gives(now) && r == expiry_verdict(exp@, rfc3339_moment(exp@), now),
{
    let then = parse_rfc3339(exp);
    let now = utc_now();
    assert(clock_gives(now));
    judge_expiry(exp, then, now)
}

/// Whether a token that expires after `left` stays within the longest life that is
/// accepted. A life of zero stands for no bound.
pub open spec fn lives_within(left: Option<Span>, max_ttl: Duration) -> bool {
    max_ttl.nanos == 0 || (left matches Some(d) && 0 <= d.total() <= max_ttl.nanos)
}

/// Decides on what is left of a token's life.
pub fn judge_life(left: Option<Span>, max_ttl: Duration) -> (r: Result<(), Status>)
    ensures
        r == if lives_within(left, max_ttl) {
            Ok::<(), Status>(())
        } else {
            Err::<(), Status>(Status::Unauthorized)
        },
{
    if max_ttl.is_zero() {
        return Ok(());
    }
    match left {
        None => Err(Status::Unauthorized),
        Some(d) => {
            let total: i128 = d.secs as i128 * 1_000_000_000 + d.nanos as i128;
            if total < 0 || total as u128 > max_ttl.nanos {
                Err(Status::Unauthorized)
            } else {
                Ok(())
            }
        },
    }
}

/// What is left at the moment `now` until an expiry.
pub open spec fn left_until(exp: Seq<char>, now: Moment) -> Option<Span> {
    match rfc3339_moment(exp) {
        Some(then) => calendar_span(then.secs, then.nanos, now.secs, now.nanos),
        None => None,
    }
}

/// The answer to a token that was parsed at the moment `now`: `exp` is its expiry,
/// or nothing if it was not accepted.
pub open spec fn parsed_verdict(exp: Option<Seq<char>>, now: Moment, max_ttl: Duration) -> Result<
    (),
    Status,
> {
    if exp is Some && lives_within(left_until(exp->0, now), max_ttl) {
        Ok(())
    } else {
        Err(Status::Unauthorized)
    }
}

/// Whether `answer` goes by what is left until an expiry, counted in nanoseconds:
/// between plain moments, the token is accepted exactly if that is neither less than
/// nothing nor more than the longest life.
pub open spec fn goes_by_time(
    exp: Option<Seq<char>>,
    now: Moment,
    max_ttl: Duration,
    answer: Result<(), Status>,
) -> bool {
    match exp {
        None => answer == Err::<(), Status>(Status::Unauthorized),
        Some(e) => match rfc3339_moment(e) {
            Some(then) => then.is_plain() && now.is_plain() ==> answer == if max_ttl.nanos == 0
                || 0 <= then.total() - now.total() <= max_ttl.nanos {
                Ok::<(), Status>(())
            } else {
                Err::<(), Status>(Status::Unauthorized)
            },
            None => max_ttl.nanos != 0 ==> answer == Err::<(), Status>(Status::Unauthorized),
        },
    }
}

/// Decides on a token that was parsed at the moment `now`.
pub fn judge_parsed(exp: Option<&str>, now: Moment, max_ttl: Duration) -> (r: Result<(), Status>)
    ensures
        r == parsed_verdict(text::said(exp), now, max_ttl),
        goes_by_time(text::said(exp), now, max_ttl, r),
{
    let exp = match exp {
        Some(exp) => exp,
        None => {
            return Err(Status::Unauthorized);
        },
    };
    let left = match parse_rfc3339(exp) {
        Some(then) => span_since(then, now),
        None => None,
    };
    judge_life(left, max_ttl)
}

/// What a token says, if it is authentic under the key: its `exp` and its
/// `remote` claim, as far as both are text.
pub uninterp spec fn token_claims(key: Seq<u8>, token: Seq<char>) -> Option<
    (Seq<char>, Seq<char>),
>;

/// Whether a token of three or four parts has a third one that is long enough
/// for a nonce and an authentication tag.
pub open spec fn has_room(token: Seq<char>) -> bool {
    let p = text::split(token, '.');
    p.len() == 3 || p.len() == 4 ==> p[2].len() >= 86
}

fn token_has_room(token: &str) -> (r: bool)
    ensures
        r == has_room(token@),
{
    let chars = text::chars_of(token);
    let p = text::split_chars(chars.as_slice(), '.');
    if p.len() == 3 || p.len() == 4 {
        p[2].len() >= 86
    } else {
        true
    }
}

/// `rusty_paseto::prelude::PasetoParser::parse` for v4.local: authenticates and
/// decrypts `token` under `key`, has `exp` decided on by [`check_expiry`], requires
/// the `remote` claim to be `remote`, and hands back `exp`, which lay after the
/// moment at which it was decided on. It also refuses a token
/// whose `nbf` has not come, so that a token with these claims may be refused at
/// some moments. It would slice out of bounds where the third part of a token is
/// too short.
#[verifier::external_body]
fn parse_token(token: &str, remote: &str, key: &SecretKey) -> (r: Option<String>)
    requires
        has_room(token@),
    ensures
        r matches Some(exp) ==> token_claims(key.bytes@, token@) == Some((exp@, remote@))
            && unexpired_once(exp@),
{
    let key = PasetoSymmetricKey::<V4, Local>::from(Key::from(key.bytes));
    let claims = PasetoParser::<V4, Local>::default()
        .validate_claim(
            ExpirationClaim::default(),
            &|_, value| {
                check_expiry(value.as_str().unwrap_or_default())
                    .map_err(|_| PasetoClaimError::Expired)
            },
        )
        .check_claim(CustomClaim::try_from(("remote", remote.to_string())).ok()?)
        .parse(token, &key)
        .ok()?;
    claims.get("exp").and_then(|v| v.as_str()).map(|s| s.to_string())
}

/// Whether the parser gives `exp` for a token: the outcomes of parsing it, which
/// depend on the time.
pub closed spec fn parser_gives(
    token: Seq<char>,
    remote: Seq<char>,
    key: SecretKey,
    exp: Option<Seq<char>>,
) -> bool {
    exists|t: &str, m: &str, k: &SecretKey, r: Option<String>|
        t@ == token && m@ == remote && *k == key && text::kept(r) == exp && #[trigger] call_ensures(
            parse_token,
            (t, m, k),
            r,
        )
}

/// The answer to a token where nothing has to be decrypted: no token is asked
/// for, the token is the one that debug builds accept, there is none, or there is
/// no key to decrypt it with.
pub open spec fn plain_verdict(
    token: Seq<char>,
    auth_mode: AuthMode,
    has_key: bool,
    debug_build: bool,
) -> Option<Result<(), Status>> {
    if auth_mode is Public || (debug_build && token == "testtoken"@) {
        Some(Ok(()))
    } else if token.len() == 0 {
        Some(Err(Status::Unauthorized))
    } else if !has_key {
        Some(Err(Status::InternalServerError))
    } else {
        None
    }
}

/// Decides on a token where nothing has to be decrypted.
pub fn judge_plainly(
    token: &str,
    auth_mode: AuthMode,
    has_key: bool,
    debug_build: bool,
) -> (r: Option<Result<(), Status>>)
    ensures
        r == plain_verdict(token@, auth_mode, has_key, debug_build),
{
    if matches!(auth_mode, AuthMode::Public) {
        return Some(Ok(()));
    }
    if debug_build && text::same_text(token, "testtoken") {
        return Some(Ok(()));
    }
    if token.is_empty() {
        return Some(Err(Status::Unauthorized));
    }
    if !has_key {
        return Some(Err(Status::InternalServerError));
    }
    None
}

/// Whether a token may open a connection to `remote` at the moment `now`, as far
/// as its claims go: it is authentic, names `remote`, had not expired when its
/// expiry was judged, and expires not too late.
pub open spec fn claims_hold(
    key: Seq<u8>,
    token: Seq<char>,
    remote: Seq<char>,
    max_ttl: Duration,
    now: Moment,
) -> bool {
    &&& token_claims(key, token) matches Some((exp, claimed))
    &&& claimed == remote
    &&& unexpired_once(exp)
    &&& lives_within(left_until(exp, now), max_ttl)
}

/// Whether `answer` is the answer to a token for which the parser gave `exp`, at the
/// moment `now`: a client is let through only with a token whose claims hold.
pub open spec fn answers(
    token: Seq<char>,
    remote: Seq<char>,
    key: SecretKey,
    max_ttl: Duration,
    exp: Option<Seq<char>>,
    now: Moment,
    answer: Result<(), Status>,
) -> bool {
    &&& parser_gives(token, remote, key, exp)
    &&& clock_gives(now)
    &&& answer == parsed_verdict(exp, now, max_ttl)
    &&& goes_by_time(exp, now, max_ttl, answer)
    &&& answer is Ok ==> claims_hold(key.bytes@, token, remote, max_ttl, now)
}

/// Whether `answer` may be the answer to a token. Where nothing has to be
/// decrypted the answer is fixed, and a token without room for what it must hold is
/// refused; otherwise the answer goes by what the parser gives for the token.
pub open spec fn may_answer(
    token: Seq<char>,
    remote: Seq<char>,
    auth_mode: AuthMode,
    secret_key: Option<SecretKey>,
    max_ttl: Duration,
    debug_build: bool,
    answer: Result<(), Status>,
) -> bool {
    match plain_verdict(token, auth_mode, secret_key is Some, debug_build) {
        Some(verdict) => answer == verdict,
        None => if has_room(token) {
            exists|exp: Option<Seq<char>>, now: Moment| #[trigger]
                answers(token, remote, secret_key->0, max_ttl, exp, now, answer)
        } else {
            answer == Err::<(), Status>(Status::Unauthorized)
        },
    }
}

/// Decides whether a client may connect to `remote`.
pub fn validate_token(
    token: &str,
    remote: &str,
    auth_mode: AuthMode,
    secret_key: &Option<SecretKey>,
    max_ttl: Duration,
    debug_build: bool,
) -> (r: Result<(), Status>)
    ensures
        may_answer(token@, remote@, auth_mode, *secret_key, max_ttl, debug_build, r),
{
    if let Some(verdict) = judge_plainly(token, auth_mode, secret_key.is_some(), debug_build) {
        return verdict;
    }
    let key = match secret_key {
        Some(key) => key,
        None => {
            return Err(Status::InternalServerError);
        },
    };
    if !token_has_room(token) {
        return Err(Status::Unauthorized);
    }
    let exp = parse_token(token, remote, key);
    let now = utc_now();
    let r = judge_parsed(
        match &exp {
            Some(exp) => Some(exp.as_str()),
            None => None,
        },
        now,
        max_ttl,
    );
    proof {
        assert(parser_gives(token@, remote@, *key, text::kept(exp)));
        assert(clock_gives(now));
        assert(answers(token@, remote@, *key, max_ttl, text::kept(exp), now, r));
    }
    r
}

/// Where no token is asked for, every client is let through, whatever it brings.
pub proof fn law_public_ignores_the_token(
    token: Seq<char>,
    remote: Seq<char>,
    secret_key: Option<SecretKey>,
    max_ttl: Duration,
    debug_build: bool,
    answer: Result<(), Status>,
)
    requires
        may_answer(token, remote, AuthMode::Public, secret_key, max_ttl, debug_build, answer),
    ensures
        answer == Ok::<(), Status>(()),
{
}

/// A release build that asks for tokens lets a client through only with a token
/// that is authentic under its secret, names the destination, has not expired when
/// it is judged, and expires, at some moment in no more than the longest life that
/// is accepted.
pub proof fn law_release_needs_a_token(
    token: Seq<char>,
    remote: Seq<char>,
    secret_key: Option<SecretKey>,
    max_ttl: Duration,
)
    requires
        may_answer(
            token,
            remote,
            AuthMode::Paseto,
            secret_key,
            max_ttl,
            false,
            Ok::<(), Status>(()),
        ),
    ensures
        token.len() > 0,
        secret_key is Some,
        exists|now: Moment| claims_hold((secret_key->0).bytes@, token, remote, max_ttl, now),
        token_claims((secret_key->0).bytes@, token) matches Some((exp, claimed)) && claimed
            == remote && unexpired_once(exp),
{
}

/// A token for one destination opens no other.
pub proof fn law_token_is_bound(
    token: Seq<char>,
    remote: Seq<char>,
    other: Seq<char>,
    secret_key: Option<SecretKey>,
    max_ttl: Duration,
    answer: Result<(), Status>,
)
    requires
        may_answer(
            token,
            remote,
            AuthMode::Paseto,
            secret_key,
            max_ttl,
            false,
            Ok::<(), Status>(()),
        ),
        may_answer(token, other, AuthMode::Paseto, secret_key, max_ttl, false, answer),
        other != remote,
    ensures
        answer == Err::<(), Status>(Status::Unauthorized),
{
}

/// A token that writes its parts with dots between them has room exactly if its third
/// part is at least 86 characters long, the length of 64 bytes in base 64. With a
/// footer behind the third part it is the same.
pub proof fn law_room_is_that_of_the_payload(
    version: Seq<char>,
    purpose: Seq<char>,
    payload: Seq<char>,
    footer: Seq<char>,
)
    requires
        !version.contains('.'),
        !purpose.contains('.'),
        !payload.contains('.'),
        !footer.contains('.'),
    ensures
        has_room(version.push('.') + (purpose.push('.') + payload)) <==> payload.len() >= 86,
        has_room(version.push('.') + (purpose.push('.') + (payload.push('.') + footer)))
            <==> payload.len() >= 86,
{
    text::lemma_split_one(payload, '.');
    text::lemma_split_joined(purpose, '.', payload);
    text::lemma_split_joined(version, '.', purpose.push('.') + payload);
    text::lemma_split_one(footer, '.');
    text::lemma_split_joined(payload, '.', footer);
    text::lemma_split_joined(purpose, '.', payload.push('.') + footer);
    text::lemma_split_joined(version, '.', purpose.push('.') + (payload.push('.') + footer));
}

/// A date is accepted as an expiry exactly if it comes later than now, counted in
/// nanoseconds, and an expiry that is empty or no date never is.
pub proof fn law_expiry_goes_by_time(exp: Seq<char>, then: Option<Moment>, now: Moment)
    requires
        now.is_plain(),
        then matches Some(t) ==> t.is_plain(),
    ensures
        expiry_verdict(exp, then, now) == Ok::<(), ExpiryError>(()) <==> exp.len() > 0
            && then is Some && then->0.total() > now.total(),
        expiry_verdict(exp, then, now) == Err::<(), ExpiryError>(ExpiryError::NotADate)
            <==> exp.len() > 0 && then is None,
{
}

/// A token is refused only for a reason. Where tokens are asked for and there is a
/// secret, an answer that refuses a token whose payload is long enough goes back to
/// an outcome of the parser and a reading of the clock: the parser did not accept the
/// token, or less than nothing or more than the longest life was left of it.
pub proof fn law_refused_for_a_reason(
    version: Seq<char>,
    purpose: Seq<char>,
    payload: Seq<char>,
    remote: Seq<char>,
    key: SecretKey,
    max_ttl: Duration,
    debug_build: bool,
    answer: Result<(), Status>,
)
    requires
        !version.contains('.'),
        !purpose.contains('.'),
        !payload.contains('.'),
        payload.len() >= 86,
        may_answer(
            version.push('.') + (purpose.push('.') + payload),
            remote,
            AuthMode::Paseto,
            Some(key),
            max_ttl,
            debug_build,
            answer,
        ),
        answer != Ok::<(), Status>(()),
    ensures
        answer == Err::<(), Status>(Status::Unauthorized),
        exists|exp: Option<Seq<char>>, now: Moment|
            {
                &&& #[trigger] parser_gives(
                    version.push('.') + (purpose.push('.') + payload),
                    remote,
                    key,
                    exp,
                )
                &&& #[trigger] clock_gives(now)
                &&& exp matches Some(e) ==> {
                    &&& max_ttl.nanos != 0
                    &&& rfc3339_moment(e) matches Some(then) ==> (then.is_plain()
                        && now.is_plain() ==> !(0 <= then.total() - now.total()
                        <= max_ttl.nanos))
                }
            },
{
    let token = version.push('.') + (purpose.push('.') + payload);
    law_room_is_that_of_the_payload(version, purpose, payload, Seq::empty());
    assert(token.len() >= 86);
    reveal_strlit("testtoken");
    let (exp, now) = choose|exp: Option<Seq<char>>, now: Moment| #[trigger]
        answers(token, remote, key, max_ttl, exp, now, answer);
    assert(parser_gives(token, remote, key, exp) && clock_gives(now));
}

/// A good token is accepted: one that the parser accepts, with an expiry that leaves
/// something and not more than the longest life, whenever the clock is read.
pub proof fn law_good_token_is_accepted(
    version: Seq<char>,
    purpose: Seq<char>,
    payload: Seq<char>,
    remote: Seq<char>,
    key: SecretKey,
    max_ttl: Duration,
    debug_build: bool,
    answer: Result<(), Status>,
)
    requires
        !version.contains('.'),
        !purpose.contains('.'),
        !payload.contains('.'),
        payload.len() >= 86,
        may_answer(
            version.push('.') + (purpose.push('.') + payload),
            remote,
            AuthMode::Paseto,
            Some(key),
            max_ttl,
            debug_build,
            answer,
        ),
        forall|exp: Option<Seq<char>>, now: Moment|
            #[trigger] parser_gives(
                version.push('.') + (purpose.push('.') + payload),
                remote,
                key,
                exp,
            ) && #[trigger] clock_gives(now) ==> {
                &&& exp is Some
                &&& now.is_plain()
                &&& rfc3339_moment(exp->0) matches Some(then) && then.is_plain() && 0
                    <= then.total() - now.total() <= max_ttl.nanos
            },
    ensures
        answer == Ok::<(), Status>(()),
{
    if answer != Ok::<(), Status>(()) {
        law_refused_for_a_reason(
            version,
            purpose,
            payload,
            remote,
            key,
            max_ttl,
            debug_build,
            answer,
        );
    }
}

/// Where tokens are asked for, none is unauthorized, and where there is no secret to
/// read one with, that is the fault of the server.
pub proof fn law_no_token_or_no_secret(
    token: Seq<char>,
    remote: Seq<char>,
    secret_key: Option<SecretKey>,
    max_ttl: Duration,
    debug_build: bool,
    answer: Result<(), Status>,
)
    requires
        may_answer(
            token,
            remote,
            AuthMode::Paseto,
            secret_key,
            max_ttl,
            debug_build,
            answer,
        ),
    ensures
        token == Seq::<char>::empty() ==> answer == Err::<(), Status>(Status::Unauthorized),
        debug_build && token == "testtoken"@ ==> answer == Ok::<(), Status>(()),
        token.len() > 0 && secret_key is None && !debug_build ==> answer == Err::<(), Status>(
            Status::InternalServerError,
        ),
        answer matches Err(status) ==> status is Unauthorized || (status is InternalServerError
            && secret_key is None),
{
    reveal_strlit("testtoken");
    assert("testtoken"@.len() == 9);
}

/// The statuses are those of HTTP: requests that are at fault are answered in the
/// four hundreds, faults of the proxy in the five hundreds, and no two alike.
pub proof fn law_status_numbers(a: Status, b: Status)
    ensures
        a.number() == b.number() ==> a == b,
        (400 <= a.number() < 500) == (a is BadRequest || a is Unauthorized || a is Forbidden
            || a is TooManyRequests),
        (500 <= a.number() < 600) == (a is InternalServerError || a is BadGateway
            || a is ServiceUnavailable),
{
}

}
