use rand::Rng;
use vstd::prelude::*;

use crate::query::{pair, pairs_view, query_with, serialize_query};
use crate::search::{groups_unsupported, tags_missing, ChannelKind, SearchPlan, SearchPlanModel};
use crate::text::{
    chars_of,
    law_decimal_digits,
    decimal,
    decimal_text,
    digits_value,
    is_digit,
    normalize_tags,
    normalized_tags,
};
use crate::xml_events::{
    body_events,
    events_attribute,
    find_attribute,
    parse_body,
    AttributeError,
    AttributeFind,
};

verus! {

/// The search URL that asks how many posts match the tags.
pub open spec fn count_url(tags: Seq<char>) -> Seq<char> {
    query_with(
        "https://rule34.xxx/index.php?page=dapi&s=post&q=index"@,
        seq![("limit"@, "0"@), ("pid"@, "0"@), ("tags"@, tags)],
    )
}

/// The search URL for the post at page `pid` of the matches.
pub open spec fn post_url(tags: Seq<char>, pid: nat) -> Seq<char> {
    query_with(
        "https://rule34.xxx/index.php?page=dapi&s=post&q=index"@,
        seq![("limit"@, "1"@), ("pid"@, decimal(pid)), ("tags"@, tags)],
    )
}

/// What the bot does with a `rule34` command: outside a server it says so;
/// outside an NSFW channel it refuses; without tags it asks for them; else
/// it asks how many posts match.
pub open spec fn rule34_plan_model(content: Seq<char>, channel: ChannelKind) -> SearchPlanModel {
    match channel {
        ChannelKind::Private => SearchPlanModel::Reply("Groups and DMs not supported"@),
        ChannelKind::Guild { nsfw } => {
            let tags = normalized_tags(content);
            if !nsfw {
                SearchPlanModel::Reply("This command only works in NSFW channels"@)
            } else if tags.len() == 0 {
                SearchPlanModel::Reply("Specify at least one tag"@)
            } else {
                SearchPlanModel::Fetch(count_url(tags))
            }
        },
    }
}

/// The URL that asks how many posts match the tags.
pub fn get_amount_url(tags: &str) -> (url: String)
    ensures
        url@ == count_url(tags@),
{
    let mut pairs: Vec<(String, String)> = Vec::new();
    pairs.push(pair("limit", "0"));
    pairs.push(pair("pid", "0"));
    pairs.push(pair("tags", tags));
    assert(pairs_view(pairs@) =~= seq![("limit"@, "0"@), ("pid"@, "0"@), ("tags"@, tags@)]);
    serialize_query("https://rule34.xxx/index.php?page=dapi&s=post&q=index", &pairs)
}

/// The URL for the post at page `pid` of the matches.
pub fn get_url(tags: &str, pid: u64) -> (url: String)
    ensures
        url@ == post_url(tags@, pid as nat),
{
    let mut pairs: Vec<(String, String)> = Vec::new();
    pairs.push(pair("limit", "1"));
    pairs.push((String::from_str("pid"), decimal_text(pid)));
    pairs.push(pair("tags", tags));
    assert(pairs_view(pairs@) =~= seq![
        ("limit"@, "1"@),
        ("pid"@, decimal(pid as nat)),
        ("tags"@, tags@),
    ]);
    serialize_query("https://rule34.xxx/index.php?page=dapi&s=post&q=index", &pairs)
}

/// The first step of the `rule34` command, from the message text and the
/// channel it came from.
pub fn rule34_plan(content: &str, channel: ChannelKind) -> (plan: SearchPlan)
    ensures
        plan@ == rule34_plan_model(content@, channel),
{
    match channel {
        ChannelKind::Private => SearchPlan::Reply(groups_unsupported()),
        ChannelKind::Guild { nsfw } => {
            if !nsfw {
                return SearchPlan::Reply(
                    String::from_str("This command only works in NSFW channels"),
                );
            }
            let tags = normalize_tags(content);
            if tags.as_str().is_empty() {
                return SearchPlan::Reply(tags_missing());
            }
            SearchPlan::Fetch(get_amount_url(tags.as_str()))
        },
    }
}

/// Why a number could not be read (the kinds of `std::num::IntErrorKind`
/// that reading an unsigned number can give).
#[derive(Clone, Copy, PartialEq, Eq, Debug)]
pub enum NumberError {
    Empty,
    InvalidDigit,
    Overflow,
}

impl NumberError {
    /// The text that `std::num::ParseIntError` shows for this kind.
    pub fn message(&self) -> (m: String)
        ensures
            m@ == number_error_text(*self),
    {
        match self {
            NumberError::Empty => String::from_str("cannot parse integer from empty string"),
            NumberError::InvalidDigit => String::from_str("invalid digit found in string"),
            NumberError::Overflow => String::from_str("number too large to fit in target type"),
        }
    }
}

/// The text shown for each kind of number error.
pub open spec fn number_error_text(e: NumberError) -> Seq<char> {
    match e {
        NumberError::Empty => "cannot parse integer from empty string"@,
        NumberError::InvalidDigit => "invalid digit found in string"@,
        NumberError::Overflow => "number too large to fit in target type"@,
    }
}

/// The digits of an unsigned number: the text without a leading `+`.
pub open spec fn unsigned_digits(s: Seq<char>) -> Seq<char> {
    if s.len() > 0 && s[0] == '+' {
        s.drop_first()
    } else {
        s
    }
}

/// The number of decimal digits at the start of `d`.
pub open spec fn digit_run(d: Seq<char>) -> nat
    decreases d.len(),
{
    if d.len() == 0 || !is_digit(d[0]) {
        0
    } else {
        1 + digit_run(d.drop_first())
    }
}

/// How a text reads as an unsigned 64-bit number (as `str::parse::<u64>`
/// reads it): an empty text is `Empty` and a lone sign an invalid digit;
/// otherwise, after an optional `+`, the digits are read from the left and
/// the first failure decides: digits whose value no longer fits give
/// `Overflow`, a character that is not a digit gives `InvalidDigit`.
pub open spec fn read_unsigned(s: Seq<char>) -> Result<nat, NumberError> {
    if s.len() == 0 {
        Err(NumberError::Empty)
    } else if s.len() == 1 && (s[0] == '+' || s[0] == '-') {
        Err(NumberError::InvalidDigit)
    } else {
        let d = unsigned_digits(s);
        let k = digit_run(d);
        if digits_value(d.take(k as int)) > u64::MAX {
            Err(NumberError::Overflow)
        } else if k < d.len() {
            Err(NumberError::InvalidDigit)
        } else {
            Ok(digits_value(d))
        }
    }
}

proof fn lemma_digit_run(d: Seq<char>, n: int)
    requires
        0 <= n <= d.len(),
        forall|j: int| 0 <= j < n ==> is_digit(#[trigger] d[j]),
    ensures
        digit_run(d) >= n,
        n == d.len() || !is_digit(d[n]) ==> digit_run(d) == n,
    decreases n,
{
    if n > 0 {
        assert forall|j: int| 0 <= j < n - 1 implies is_digit(#[trigger] d.drop_first()[j]) by {
            assert(d.drop_first()[j] == d[j + 1]);
        }
        lemma_digit_run(d.drop_first(), n - 1);
    }
}

proof fn lemma_digit_run_digits(d: Seq<char>)
    ensures
        digit_run(d) <= d.len(),
        forall|j: int| 0 <= j < digit_run(d) ==> is_digit(#[trigger] d[j]),
    decreases d.len(),
{
    if d.len() > 0 && is_digit(d[0]) {
        lemma_digit_run_digits(d.drop_first());
        assert forall|j: int| 0 <= j < digit_run(d) implies is_digit(#[trigger] d[j]) by {
            if j > 0 {
                assert(d[j] == d.drop_first()[j - 1]);
            }
        }
    }
}

proof fn lemma_digits_value_grows(d: Seq<char>, a: int, b: int)
    requires
        0 <= a <= b <= d.len(),
        forall|j: int| 0 <= j < b ==> is_digit(#[trigger] d[j]),
    ensures
        digits_value(d.take(a)) <= digits_value(d.take(b)),
    decreases b - a,
{
    if a < b {
        lemma_digits_value_grows(d, a, b - 1);
        assert(d.take(b).drop_last() =~= d.take(b - 1));
        assert(is_digit(d[b - 1]));
    }
}

/// Reads a text as an unsigned 64-bit number, as `read_unsigned` says.
#[verifier::loop_isolation(false)]
pub fn read_count(s: &str) -> (r: Result<u64, NumberError>)
    ensures
        match r {
            Ok(n) => read_unsigned(s@) == Ok::<nat, NumberError>(n as nat),
            Err(e) => read_unsigned(s@) == Err::<nat, NumberError>(e),
        },
{
    let c = chars_of(s);
    if c.len() == 0 {
        return Err(NumberError::Empty);
    }
    if c.len() == 1 && (c[0] == '+' || c[0] == '-') {
        return Err(NumberError::InvalidDigit);
    }
    let start: usize = if c[0] == '+' {
        1
    } else {
        0
    };
    let ghost d = unsigned_digits(s@);
    assert(d =~= c@.skip(start as int));
    let mut value: u64 = 0;
    let mut i: usize = start;
    assert(d.take(0) =~= Seq::<char>::empty());
    while i < c.len()
        invariant
            start <= i <= c@.len(),
            d == c@.skip(start as int),
            forall|j: int| 0 <= j < i - start ==> is_digit(#[trigger] d[j]),
            value == digits_value(d.take(i - start)),
        decreases c@.len() - i,
    {
        let ch = c[i];
        assert(d[i - start] == ch);
        if !('0' <= ch && ch <= '9') {
            proof {
                lemma_digit_run(d, i - start);
            }
            return Err(NumberError::InvalidDigit);
        }
        let dv = (ch as u32 - 48) as u64;
        assert(d.take(i + 1 - start).drop_last() =~= d.take(i - start));
        assert(digits_value(d.take(i + 1 - start)) == value * 10 + dv);
        proof {
            lemma_digit_run(d, i + 1 - start);
        }
        match value.checked_mul(10) {
            None => {
                proof {
                    lemma_digit_run_digits(d);
                    lemma_digits_value_grows(d, i + 1 - start, digit_run(d) as int);
                }
                return Err(NumberError::Overflow);
            },
            Some(m) => match m.checked_add(dv) {
                None => {
                    proof {
                        lemma_digit_run_digits(d);
                    lemma_digits_value_grows(d, i + 1 - start, digit_run(d) as int);
                    }
                    return Err(NumberError::Overflow);
                },
                Some(v) => {
                    value = v;
                },
            },
        }
        i = i + 1;
    }
    proof {
        lemma_digit_run(d, d.len() as int);
        assert(d.take(d.len() as int) =~= d);
    }
    Ok(value)
}

/// `rand::thread_rng().gen_range(0..bound)`: claims only that the number is
/// below the bound.
#[verifier::external_body]
fn random_below(bound: u64) -> (n: u64)
    requires
        bound > 0,
    ensures
        n < bound,
{
    rand::thread_rng().gen_range(0..bound)
}

/// The text of a failure to find an attribute in a search answer.
pub open spec fn attribute_failure_text(found: Option<AttributeFind>) -> Seq<char> {
    match found {
        Some(AttributeFind::Reason(r)) => "No results: "@ + r,
        _ => "API deserialization failed"@,
    }
}

/// The text of a failure to find an attribute in a search answer.
pub fn attribute_failure_message(e: AttributeError) -> (m: String)
    ensures
        m@ == match e {
            AttributeError::NoResults(r) => "No results: "@ + r@,
            AttributeError::Unreadable => "API deserialization failed"@,
        },
{
    match e {
        AttributeError::NoResults(r) => String::from_str("No results: ").concat(r.as_str()),
        AttributeError::Unreadable => String::from_str("API deserialization failed"),
    }
}

/// The number of posts matching a search, from the count answer; or the
/// answer to give when it cannot be read.
pub fn get_amount(body: &[u8]) -> (r: Result<u64, String>)
    ensures
        match events_attribute(body_events(body@), "count"@) {
            Some(AttributeFind::Found(v)) => match r {
                Ok(n) => read_unsigned(v) == Ok::<nat, NumberError>(n as nat),
                Err(m) => read_unsigned(v) matches Err(e) && m@ == number_error_text(e),
            },
            other => r matches Err(m) && m@ == attribute_failure_text(other),
        },
{
    let events = parse_body(body);
    match find_attribute(&events, &String::from_str("count")) {
        Ok(v) => match read_count(v.as_str()) {
            Ok(n) => Ok(n),
            Err(e) => Err(e.message()),
        },
        Err(e) => Err(attribute_failure_message(e)),
    }
}

/// After the count answer: the text to reply with, or the request for the
/// post at a page below the count.
pub fn rule34_after_count(tags: &str, body: &[u8]) -> (plan: SearchPlan)
    ensures
        match events_attribute(body_events(body@), "count"@) {
            Some(AttributeFind::Found(v)) => match read_unsigned(v) {
                Ok(amount) => if amount < 1 {
                    plan@ == SearchPlanModel::Reply("No Results"@)
                } else {
                    exists|pid: nat|
                        pid < amount && plan@ == SearchPlanModel::Fetch(post_url(tags@, pid))
                },
                Err(e) => plan@ == SearchPlanModel::Reply(number_error_text(e)),
            },
            other => plan@ == SearchPlanModel::Reply(attribute_failure_text(other)),
        },
{
    match get_amount(body) {
        Err(m) => SearchPlan::Reply(m),
        Ok(amount) => {
            if amount < 1 {
                return SearchPlan::Reply(String::from_str("No Results"));
            }
            let pid = random_below(amount);
            let url = get_url(tags, pid);
            assert(pid < amount && url@ == post_url(tags@, pid as nat));
            SearchPlan::Fetch(url)
        },
    }
}

/// The answer to a `rule34` post request, from the response body: the
/// `file_url` attribute, or the text that tells why there is none.
pub open spec fn rule34_reply_model(body: Seq<u8>) -> Seq<char> {
    match events_attribute(body_events(body), "file_url"@) {
        Some(AttributeFind::Found(url)) => url,
        other => attribute_failure_text(other),
    }
}

/// The answer to a `rule34` post request, from the response body.
pub fn rule34_reply(body: &[u8]) -> (reply: String)
    ensures
        reply@ == rule34_reply_model(body@),
{
    let events = parse_body(body);
    match find_attribute(&events, &String::from_str("file_url")) {
        Ok(url) => url,
        Err(e) => attribute_failure_message(e),
    }
}

/// Outside an NSFW channel of a server, the `rule34` command never searches.
pub proof fn law_rule34_searches_only_in_nsfw_channels(content: Seq<char>, channel: ChannelKind)
    requires
        channel != (ChannelKind::Guild { nsfw: true }),
    ensures
        rule34_plan_model(content, channel) is Reply,
{
}

/// In an NSFW channel the count request searches the tags normalized as for
/// every search command (`normalized_tags`), unchanged otherwise; without
/// tags it asks for them.
pub proof fn law_rule34_searches_normalized_tags(content: Seq<char>)
    ensures
        normalized_tags(content).len() > 0 ==> rule34_plan_model(
            content,
            ChannelKind::Guild { nsfw: true },
        ) == SearchPlanModel::Fetch(count_url(normalized_tags(content))),
        normalized_tags(content).len() == 0 ==> rule34_plan_model(
            content,
            ChannelKind::Guild { nsfw: true },
        ) == SearchPlanModel::Reply("Specify at least one tag"@),
{
}

/// Reading the decimal text of a number that fits gives the number back,
/// with or without a leading `+`.
pub proof fn law_read_unsigned_of_decimal(n: nat)
    requires
        n <= u64::MAX,
    ensures
        read_unsigned(decimal(n)) == Ok::<nat, NumberError>(n),
        read_unsigned(seq!['+'] + decimal(n)) == Ok::<nat, NumberError>(n),
{
    law_decimal_digits(n);
    let d = decimal(n);
    lemma_digit_run(d, d.len() as int);
    assert(d.take(d.len() as int) =~= d);
    let s2 = seq!['+'] + d;
    assert(s2.drop_first() =~= d);
    assert(unsigned_digits(s2) == d);
    assert(!is_digit('+'));
}

/// How reading fails: an empty text is `Empty`; digits that fit followed by
/// a character that is not a digit are `InvalidDigit`, whatever follows;
/// digits whose value does not fit are `Overflow`, whatever follows them.
pub proof fn law_read_unsigned_failures(n: nat, c: char, rest: Seq<char>)
    ensures
        read_unsigned(Seq::<char>::empty()) == Err::<nat, NumberError>(NumberError::Empty),
        n <= u64::MAX && !is_digit(c) ==> read_unsigned(decimal(n) + seq![c] + rest) == Err::<
            nat,
            NumberError,
        >(NumberError::InvalidDigit),
        n > u64::MAX ==> read_unsigned(decimal(n) + rest) == Err::<nat, NumberError>(
            NumberError::Overflow,
        ),
{
    law_decimal_digits(n);
    let d = decimal(n);
    if n <= u64::MAX && !is_digit(c) {
        let s = d + seq![c] + rest;
        assert(s[0] == d[0]);
        assert(unsigned_digits(s) == s);
        assert forall|j: int| 0 <= j < d.len() implies is_digit(#[trigger] s[j]) by {
            assert(s[j] == d[j]);
        }
        assert(s[d.len() as int] == c);
        lemma_digit_run(s, d.len() as int);
        assert(s.take(d.len() as int) =~= d);
    }
    if n > u64::MAX {
        let s = d + rest;
        assert(d.len() > 1) by {
            if d.len() == 1 {
                assert(digits_value(d) == digits_value(d.drop_last()) * 10 + ((d.last() as int)
                    - 48) as nat);
                assert(d.drop_last() =~= Seq::<char>::empty());
                assert(d.last() == d[0]);
            }
        }
        assert(s[0] == d[0]);
        assert(unsigned_digits(s) == s);
        assert forall|j: int| 0 <= j < d.len() implies is_digit(#[trigger] s[j]) by {
            assert(s[j] == d[j]);
        }
        lemma_digit_run(s, d.len() as int);
        lemma_digit_run_digits(s);
        lemma_digits_value_grows(s, d.len() as int, digit_run(s) as int);
        assert(s.take(d.len() as int) =~= d);
    }
}

} // verus!
