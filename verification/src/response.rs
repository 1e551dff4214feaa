//! Responses, and what they tell of the limit.

use crate::algorithm::Decision;
use crate::headers::{new_headers, set_header};
#[allow(unused_imports)]
use crate::headers::{
    field, field_is_read_as_written, fields_of, has_room, is_name, is_value, no_fields, with_field,
};
use crate::json::{write_object, JsonValue};
#[allow(unused_imports)]
use crate::json::{ascending, members_text_grows, quoted, quoted_plain};
#[allow(unused_imports)]
use crate::text::{decimal, decimal_holds_digits};
use crate::text::to_decimal;
use crate::time::{Duration, Instant, NANOS_PER_SEC};
use http::{HeaderMap, HeaderValue};
use vstd::prelude::*;
#[allow(unused_imports)]
use vstd::string::*;

verus! {

pub struct Response {
    pub status: u16,
    pub headers: HeaderMap<HeaderValue>,
    pub body: String,
    /// What the limiter said of the request.
    pub decision: Option<Decision>,
}

/// The seconds that a requester is told to wait: at least one.
pub open spec fn whole_seconds(wait: Duration) -> nat {
    if wait.secs == 0 {
        1
    } else {
        wait.secs as nat
    }
}

/// The seconds that a denied requester is told to wait.
pub open spec fn retry_seconds(decision: Decision) -> nat {
    match decision.retry_after {
        Some(wait) => whole_seconds(wait),
        None => 1,
    }
}

fn at_least_one(wait: Duration) -> (r: u64)
    ensures
        r == whole_seconds(wait),
{
    if wait.secs == 0 {
        1
    } else {
        wait.secs
    }
}

/// What a text in JSON tells a denied requester.
pub open spec fn denial_text(decision: Decision, policy_name: Seq<char>) -> Seq<char> {
    let seconds = decimal(retry_seconds(decision));
    "{\"error\":\"rate_limit_exceeded\",\"limit\":"@ + decimal(decision.limit as nat)
        + ",\"message\":\"Too many requests. Retry after "@ + seconds
        + " seconds.\",\"policy\":"@ + quoted(policy_name) + ",\"retry_after\":"@
        + seconds + "}"@
}

/// What a denied requester reads.
pub open spec fn denial_message(decision: Decision) -> Seq<char> {
    "Too many requests. Retry after "@ + decimal(retry_seconds(decision)) + " seconds."@
}

proof fn lemma_quoted_literals()
    ensures
        quoted("error"@) == "\"error\""@,
        quoted("limit"@) == "\"limit\""@,
        quoted("message"@) == "\"message\""@,
        quoted("policy"@) == "\"policy\""@,
        quoted("retry_after"@) == "\"retry_after\""@,
        quoted("rate_limit_exceeded"@) == "\"rate_limit_exceeded\""@,
{
    reveal_strlit("error");
    reveal_strlit("limit");
    reveal_strlit("message");
    reveal_strlit("policy");
    reveal_strlit("retry_after");
    reveal_strlit("rate_limit_exceeded");
    reveal_strlit("\"error\"");
    reveal_strlit("\"limit\"");
    reveal_strlit("\"message\"");
    reveal_strlit("\"policy\"");
    reveal_strlit("\"retry_after\"");
    reveal_strlit("\"rate_limit_exceeded\"");
    quoted_plain("error"@);
    quoted_plain("limit"@);
    quoted_plain("message"@);
    quoted_plain("policy"@);
    quoted_plain("retry_after"@);
    quoted_plain("rate_limit_exceeded"@);
    assert(quoted("error"@) =~= "\"error\""@);
    assert(quoted("limit"@) =~= "\"limit\""@);
    assert(quoted("message"@) =~= "\"message\""@);
    assert(quoted("policy"@) =~= "\"policy\""@);
    assert(quoted("retry_after"@) =~= "\"retry_after\""@);
    assert(quoted("rate_limit_exceeded"@) =~= "\"rate_limit_exceeded\""@);
}

proof fn lemma_quoted_message(decision: Decision)
    ensures
        quoted(denial_message(decision)) == seq!['"'] + denial_message(decision) + seq!['"'],
{
    reveal_strlit("Too many requests. Retry after ");
    reveal_strlit(" seconds.");
    decimal_holds_digits(retry_seconds(decision));
    quoted_plain(denial_message(decision));
}

/// The pieces of the object that tells a denied requester, put together.
proof fn lemma_denial_text(decision: Decision, policy_name: Seq<char>)
    ensures
        ({
            let seconds = decimal(retry_seconds(decision));
            let comma = seq![','];
            let colon = seq![':'];
            seq!['{'] + (quoted("error"@) + colon + quoted("rate_limit_exceeded"@) + comma + (
            quoted("limit"@) + colon + decimal(decision.limit as nat)) + comma + (quoted(
                "message"@,
            ) + colon
                + quoted(denial_message(decision))) + comma + (quoted("policy"@) + colon + quoted(
                policy_name,
            )) + comma + (quoted("retry_after"@) + colon + seconds)) + seq!['}'] == denial_text(
                decision,
                policy_name,
            )
        }),
{
    lemma_quoted_literals();
    lemma_quoted_message(decision);
    reveal_strlit("Too many requests. Retry after ");
    reveal_strlit(" seconds.");
    reveal_strlit("\"error\"");
    reveal_strlit("\"limit\"");
    reveal_strlit("\"message\"");
    reveal_strlit("\"policy\"");
    reveal_strlit("\"retry_after\"");
    reveal_strlit("\"rate_limit_exceeded\"");
    reveal_strlit("{\"error\":\"rate_limit_exceeded\",\"limit\":");
    reveal_strlit(",\"message\":\"Too many requests. Retry after ");
    reveal_strlit(" seconds.\",\"policy\":");
    reveal_strlit(",\"retry_after\":");
    reveal_strlit("}");
    let seconds = decimal(retry_seconds(decision));
    let limit = decimal(decision.limit as nat);
    let policy = quoted(policy_name);
    let comma = seq![','];
    let colon = seq![':'];
    assert(seq!['{'] + ("\"error\""@ + colon + "\"rate_limit_exceeded\""@ + comma + ("\"limit\""@
        + colon)) =~= "{\"error\":\"rate_limit_exceeded\",\"limit\":"@);
    assert(comma + ("\"message\""@ + colon + (seq!['"'] + "Too many requests. Retry after "@))
        =~= ",\"message\":\"Too many requests. Retry after "@);
    assert(" seconds."@ + seq!['"'] + comma + ("\"policy\""@ + colon)
        =~= " seconds.\",\"policy\":"@);
    assert(comma + ("\"retry_after\""@ + colon) =~= ",\"retry_after\":"@);
    assert(seq!['}'] =~= "}"@);
    assert(seq!['{'] + ("\"error\""@ + colon + "\"rate_limit_exceeded\""@ + comma + (
    "\"limit\""@ + colon + limit) + comma + ("\"message\""@ + colon + (seq!['"']
        + denial_message(decision) + seq!['"'])) + comma + ("\"policy\""@ + colon + policy)
        + comma + ("\"retry_after\""@ + colon + seconds)) + seq!['}'] =~= denial_text(
        decision,
        policy_name,
    ));
}

/// The fields of a response in JSON.
pub open spec fn json_fields() -> Map<Seq<char>, Seq<Seq<u8>>> {
    with_field(no_fields(), "content-type"@, "application/json"@)
}

/// The fields of the response to a denied request.
pub open spec fn denial_fields(decision: Decision) -> Map<Seq<char>, Seq<Seq<u8>>> {
    with_field(json_fields(), "retry-after"@, decimal(retry_seconds(decision)))
}

proof fn lemma_decimal_is_value(n: nat)
    ensures
        is_value(decimal(n)),
{
    decimal_holds_digits(n);
}

/// Tells a requester that the limit is exceeded.
pub fn build_429_response(decision: &Decision, policy_name: &str) -> (r: Response)
    ensures
        r.status == 429,
        fields_of(r.headers) == denial_fields(*decision),
        r.body@ == denial_text(*decision, policy_name@),
        r.decision == Some(*decision),
{
    let retry_after_secs: u64 = match decision.retry_after {
        Some(wait) => at_least_one(wait),
        None => 1,
    };
    let seconds: String = to_decimal(retry_after_secs as u128);
    let mut message: String = "Too many requests. Retry after ".to_owned();
    message.append(seconds.as_str());
    message.append(" seconds.");
    let error: JsonValue = JsonValue::Text("rate_limit_exceeded".to_owned());
    let limit: JsonValue = JsonValue::Number(decision.limit);
    let told: JsonValue = JsonValue::Text(message);
    let policy: JsonValue = JsonValue::Text(policy_name.to_owned());
    let wait: JsonValue = JsonValue::Number(retry_after_secs);
    let mut members: Vec<(&'static str, JsonValue)> = Vec::new();
    proof {
        members_text_grows(members@, "error", error);
        let m = members@.push(("error", error));
        members_text_grows(m, "limit", limit);
        let m = m.push(("limit", limit));
        members_text_grows(m, "message", told);
        let m = m.push(("message", told));
        members_text_grows(m, "policy", policy);
        let m = m.push(("policy", policy));
        members_text_grows(m, "retry_after", wait);
        lemma_denial_text(*decision, policy_name@);
    }
    members.push(("error", error));
    members.push(("limit", limit));
    members.push(("message", told));
    members.push(("policy", policy));
    members.push(("retry_after", wait));
    proof {
        reveal_strlit("error");
        reveal_strlit("limit");
        reveal_strlit("message");
        reveal_strlit("policy");
        reveal_strlit("retry_after");
        assert(ascending(members@));
        reveal_strlit("content-type");
        reveal_strlit("application/json");
        reveal_strlit("retry-after");
        lemma_decimal_is_value(retry_after_secs as nat);
    }
    let body: String = write_object(members);
    let mut headers: HeaderMap<HeaderValue> = new_headers();
    let _ = set_header(&mut headers, "content-type", "application/json");
    let _ = set_header(&mut headers, "retry-after", seconds.as_str());
    Response { status: 429, headers, body, decision: Some(*decision) }
}

/// The moment at which the bucket is full again, in seconds since 1970, where the clock reads
/// `now` at `unix` since 1970.
pub open spec fn reset_seconds(decision: Decision, now: Instant, unix: Duration) -> nat {
    (unix.total() + decision.reset_at.ahead(now)) / (NANOS_PER_SEC as nat)
}

/// The moment at which the bucket is full again, unless it is too far ahead.
pub fn reset_time(decision: &Decision, now: Instant, unix: Duration) -> (r: Option<u64>)
    ensures
        match r {
            Some(seconds) => seconds == reset_seconds(*decision, now, unix),
            None => reset_seconds(*decision, now, unix) > u64::MAX,
        },
{
    let ahead: u128 = decision.reset_at.nanos_ahead(now);
    let since: u128 = unix.as_nanos();
    let most: u128 = 18_446_744_073_709_551_616_000_000_000 - 1;
    if ahead > most || since > most - ahead {
        return None;
    }
    Some(((since + ahead) / (NANOS_PER_SEC as u128)) as u64)
}

/// The fields with those added that tell of the limit.
pub open spec fn limit_fields(
    fields: Map<Seq<char>, Seq<Seq<u8>>>,
    decision: Decision,
    reset: nat,
) -> Map<Seq<char>, Seq<Seq<u8>>> {
    let fields = with_field(fields, "x-ratelimit-limit"@, decimal(decision.limit as nat));
    let fields = with_field(fields, "x-ratelimit-remaining"@, decimal(decision.remaining as nat));
    let fields = with_field(fields, "x-ratelimit-reset"@, decimal(reset));
    match decision.retry_after {
        Some(wait) => with_field(fields, "retry-after"@, decimal(whole_seconds(wait))),
        None => fields,
    }
}

/// The fields of a response that was told of the limit, if the request was limited.
pub open spec fn told_fields(resp: Response, now: Instant, unix: Duration) -> Map<
    Seq<char>,
    Seq<Seq<u8>>,
> {
    match resp.decision {
        Some(decision) => limit_fields(
            fields_of(resp.headers),
            decision,
            reset_seconds(decision, now, unix),
        ),
        None => fields_of(resp.headers),
    }
}

/// Writes a number into a field, unless the map refuses to grow.
fn set_number(headers: &mut HeaderMap<HeaderValue>, name: &'static str, n: u64) -> (r: bool)
    requires
        is_name(name@),
    ensures
        !r ==> !has_room(fields_of(*old(headers)), 0),
        fields_of(*final(headers)) == if r {
            with_field(fields_of(*old(headers)), name@, decimal(n as nat))
        } else {
            fields_of(*old(headers))
        },
{
    proof {
        lemma_decimal_is_value(n as nat);
    }
    set_header(headers, name, to_decimal(n as u128).as_str()).is_ok()
}

/// Whether the moment of the reset, if a response tells one, has a number.
pub open spec fn has_reset(resp: Response, now: Instant, unix: Duration) -> bool {
    resp.decision matches Some(decision) ==> reset_seconds(decision, now, unix) <= u64::MAX
}

/// Tells the requester of the limit, where the request was limited; the clock reads `now` at
/// `unix` since 1970. Returns false where the map refuses to grow, which it does not as long as
/// there is room for three names.
pub fn inject_rate_limit_headers(resp: &mut Response, now: Instant, unix: Duration) -> (r: bool)
    requires
        has_reset(*old(resp), now, unix),
    ensures
        r ==> fields_of(final(resp).headers) == told_fields(*old(resp), now, unix),
        old(resp).decision is None || has_room(fields_of(old(resp).headers), 3) ==> r,
        final(resp).status == old(resp).status,
        final(resp).body == old(resp).body,
        final(resp).decision == old(resp).decision,
{
    let decision: Decision = match &resp.decision {
        Some(decision) => *decision,
        None => {
            return true;
        },
    };
    proof {
        reveal_strlit("x-ratelimit-limit");
        reveal_strlit("x-ratelimit-remaining");
        reveal_strlit("x-ratelimit-reset");
        reveal_strlit("retry-after");
    }
    let reset: u64 = match reset_time(&decision, now, unix) {
        Some(seconds) => seconds,
        None => 0,
    };
    let told: bool = set_number(&mut resp.headers, "x-ratelimit-limit", decision.limit)
        && set_number(&mut resp.headers, "x-ratelimit-remaining", decision.remaining) && set_number(
        &mut resp.headers,
        "x-ratelimit-reset",
        reset,
    );
    match decision.retry_after {
        Some(wait) => told && set_number(&mut resp.headers, "retry-after", at_least_one(wait)),
        None => told,
    }
}

proof fn lemma_number_is_read(
    fields: Map<Seq<char>, Seq<Seq<u8>>>,
    name: Seq<char>,
    n: nat,
    other: Seq<char>,
)
    ensures
        field(with_field(fields, name, decimal(n)), name) == Some(Some(decimal(n))),
        other != name ==> field(with_field(fields, name, decimal(n)), other) == field(
            fields,
            other,
        ),
{
    decimal_holds_digits(n);
    field_is_read_as_written(fields, name, decimal(n), other);
}

/// A requester reads the limit, what remains of it and when it is reset; a denied one also reads
/// how long to wait.
pub proof fn limit_is_told(
    fields: Map<Seq<char>, Seq<Seq<u8>>>,
    decision: Decision,
    reset: nat,
)
    ensures
        ({
            let told = limit_fields(fields, decision, reset);
            &&& field(told, "x-ratelimit-limit"@) == Some(Some(decimal(decision.limit as nat)))
            &&& field(told, "x-ratelimit-remaining"@) == Some(
                Some(decimal(decision.remaining as nat)),
            )
            &&& field(told, "x-ratelimit-reset"@) == Some(Some(decimal(reset)))
            &&& decision.retry_after matches Some(wait) ==> field(told, "retry-after"@) == Some(
                Some(decimal(whole_seconds(wait))),
            )
        }),
{
    let (limit, remaining) = ("x-ratelimit-limit"@, "x-ratelimit-remaining"@);
    let (reset_name, retry) = ("x-ratelimit-reset"@, "retry-after"@);
    reveal_strlit("x-ratelimit-limit");
    reveal_strlit("x-ratelimit-remaining");
    reveal_strlit("x-ratelimit-reset");
    reveal_strlit("retry-after");
    assert(limit[12] == 'l' && reset_name[12] == 'r');
    assert(remaining.len() == 21 && retry.len() == 11 && limit.len() == 17 && reset_name.len()
        == 17);
    let (l, r) = (decision.limit as nat, decision.remaining as nat);
    lemma_number_is_read(fields, limit, l, limit);
    let one = with_field(fields, limit, decimal(l));
    lemma_number_is_read(one, remaining, r, limit);
    let two = with_field(one, remaining, decimal(r));
    lemma_number_is_read(two, reset_name, reset, limit);
    lemma_number_is_read(two, reset_name, reset, remaining);
    let three = with_field(two, reset_name, decimal(reset));
    if let Some(wait) = decision.retry_after {
        lemma_number_is_read(three, retry, whole_seconds(wait), limit);
        lemma_number_is_read(three, retry, whole_seconds(wait), remaining);
        lemma_number_is_read(three, retry, whole_seconds(wait), reset_name);
    }
}

/// A denied requester reads how long to wait: a second at least.
pub proof fn denial_tells_how_long_to_wait(decision: Decision)
    ensures
        field(denial_fields(decision), "retry-after"@) == Some(
            Some(decimal(retry_seconds(decision))),
        ),
        retry_seconds(decision) >= 1,
{
    lemma_number_is_read(
        json_fields(),
        "retry-after"@,
        retry_seconds(decision),
        "retry-after"@,
    );
}

/// The wait is told in whole seconds, and is one at least; who is told none is told one.
pub proof fn told_seconds_are_whole(decision: Decision)
    ensures
        decision.retry_after is None ==> retry_seconds(decision) == 1,
        decision.retry_after matches Some(wait) ==> retry_seconds(decision) == whole_seconds(wait),
        decision.retry_after matches Some(wait) ==> (wait.secs == 0 ==> whole_seconds(wait) == 1),
        decision.retry_after matches Some(wait) ==> (wait.secs > 0 ==> whole_seconds(wait)
            == wait.secs),
{
}

/// The reset is told in whole seconds since 1970: those that have passed, and those until then.
pub proof fn reset_is_told_to_the_second(decision: Decision, now: Instant, unix: Duration)
    ensures
        ({
            let since = unix.secs * 1_000_000_000 + unix.nanos;
            let until = if decision.reset_at.nanos >= now.nanos {
                decision.reset_at.nanos - now.nanos
            } else {
                0
            };
            let told = reset_seconds(decision, now, unix);
            told * 1_000_000_000 <= since + until < (told + 1) * 1_000_000_000
        }),
{
}

/// What is told of the limit leaves all other fields as they are; without a decision, all of them.
pub proof fn other_fields_are_left_alone(
    resp: Response,
    now: Instant,
    unix: Duration,
    name: Seq<char>,
)
    requires
        resp.decision is None || name != "x-ratelimit-limit"@ && name != "x-ratelimit-remaining"@
            && name != "x-ratelimit-reset"@ && name != "retry-after"@,
    ensures
        told_fields(resp, now, unix).contains_key(name) == fields_of(resp.headers).contains_key(
            name,
        ),
        fields_of(resp.headers).contains_key(name) ==> told_fields(resp, now, unix)[name]
            == fields_of(resp.headers)[name],
{
}

/// A limited requester reads the limit, what remains, the reset, and, where there is a wait, how
/// long it is.
pub proof fn told_fields_are_read(resp: Response, now: Instant, unix: Duration)
    requires
        resp.decision is Some,
    ensures
        ({
            let told = told_fields(resp, now, unix);
            let decision = resp.decision->Some_0;
            &&& field(told, "x-ratelimit-limit"@) == Some(Some(decimal(decision.limit as nat)))
            &&& field(told, "x-ratelimit-remaining"@) == Some(
                Some(decimal(decision.remaining as nat)),
            )
            &&& field(told, "x-ratelimit-reset"@) == Some(
                Some(decimal(reset_seconds(decision, now, unix))),
            )
            &&& decision.retry_after matches Some(wait) ==> field(told, "retry-after"@) == Some(
                Some(decimal(if wait.secs == 0 { 1 } else { wait.secs as nat })),
            )
            &&& decision.retry_after is None ==> field(told, "retry-after"@) == field(
                fields_of(resp.headers),
                "retry-after"@,
            )
        }),
{
    let decision = resp.decision->Some_0;
    limit_is_told(fields_of(resp.headers), decision, reset_seconds(decision, now, unix));
    reveal_strlit("x-ratelimit-limit");
    reveal_strlit("x-ratelimit-remaining");
    reveal_strlit("x-ratelimit-reset");
    reveal_strlit("retry-after");
    assert("retry-after"@.len() == 11 && "x-ratelimit-limit"@.len() == 17
        && "x-ratelimit-remaining"@.len() == 21 && "x-ratelimit-reset"@.len() == 17);
}

/// A denied requester is told why in JSON, and reads nothing but that and how long to wait.
pub proof fn denial_is_told(decision: Decision, policy_name: Seq<char>, seconds: nat)
    requires
        seconds == match decision.retry_after {
            Some(wait) => if wait.secs == 0 {
                1
            } else {
                wait.secs as nat
            },
            None => 1,
        },
    ensures
        denial_text(decision, policy_name) == "{\"error\":\"rate_limit_exceeded\",\"limit\":"@
            + decimal(decision.limit as nat) + ",\"message\":\"Too many requests. Retry after "@
            + decimal(seconds) + " seconds.\",\"policy\":"@ + quoted(policy_name)
            + ",\"retry_after\":"@ + decimal(seconds) + "}"@,
        field(denial_fields(decision), "content-type"@) == Some(Some("application/json"@)),
        field(denial_fields(decision), "retry-after"@) == Some(Some(decimal(seconds))),
        forall|name: Seq<char>| #[trigger]
            denial_fields(decision).contains_key(name) <==> name == "content-type"@ || name
                == "retry-after"@,
{
    reveal_strlit("content-type");
    reveal_strlit("application/json");
    reveal_strlit("retry-after");
    assert("content-type"@.len() == 12 && "retry-after"@.len() == 11);
    denial_tells_how_long_to_wait(decision);
    field_is_read_as_written(no_fields(), "content-type"@, "application/json"@, "content-type"@);
    lemma_number_is_read(json_fields(), "retry-after"@, seconds, "content-type"@);
}

} // verus!
