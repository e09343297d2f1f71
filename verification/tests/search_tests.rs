use discord_bot::danbooru::{danbooru_plan, danbooru_reply, get_url as danbooru_url};
use discord_bot::rule34::{
    get_amount, get_amount_url, get_url as rule34_url, rule34_after_count, rule34_plan,
    read_count, rule34_reply, NumberError,
};
use discord_bot::search::{ChannelKind, SearchPlan};
use discord_bot::text::{chars_of, contains_chars, decimal_text, normalize_tags};
use discord_bot::xml_events::{
    find_attribute, first_element_text, parse_body, AttributeError, XmlEvent,
};

fn reply_text(plan: &SearchPlan) -> Option<String> {
    match plan {
        SearchPlan::Reply(m) => Some(m.clone()),
        SearchPlan::Fetch(_) => None,
    }
}

fn fetch_url(plan: &SearchPlan) -> Option<String> {
    match plan {
        SearchPlan::Reply(_) => None,
        SearchPlan::Fetch(u) => Some(u.clone()),
    }
}

#[test]
fn normalize_drops_command_and_extra_spaces() {
    assert_eq!(normalize_tags("!danbooru  cat   ears "), "cat_ears");
}

#[test]
fn normalize_commas_separate_tags() {
    assert_eq!(normalize_tags("!danbooru blue sky, red hair,green eyes"), "blue_sky red_hair green_eyes");
}

#[test]
fn normalize_empty_after_command() {
    assert_eq!(normalize_tags("!danbooru"), "");
    assert_eq!(normalize_tags("!danbooru    "), "");
    assert_eq!(normalize_tags(""), "");
}

#[test]
fn normalize_keeps_other_characters() {
    assert_eq!(normalize_tags("!r34 héllo_wörld"), "héllo_wörld");
    assert_eq!(normalize_tags("!r34 a,,b"), "a  b");
}

#[test]
fn contains_finds_substrings() {
    let hay = chars_of("cat rating:s");
    assert!(contains_chars(&hay, &chars_of("rating:")));
    assert!(!contains_chars(&hay, &chars_of("rating:q")));
    assert!(contains_chars(&hay, &chars_of("")));
    assert!(!contains_chars(&chars_of("ab"), &chars_of("abc")));
}

#[test]
fn chars_of_unicode() {
    assert_eq!(chars_of("ünï t"), vec!['ü', 'n', 'ï', ' ', 't']);
}

#[test]
fn decimal_text_values() {
    assert_eq!(decimal_text(0), "0");
    assert_eq!(decimal_text(7), "7");
    assert_eq!(decimal_text(10), "10");
    assert_eq!(decimal_text(1234567), "1234567");
    assert_eq!(decimal_text(u64::MAX), "18446744073709551615");
}

#[test]
fn danbooru_url_encodes_tags() {
    assert_eq!(
        danbooru_url("cat_ears rating:s"),
        "http://danbooru.donmai.us/posts.xml?random=true&limit=1&tags=cat_ears+rating%3As"
    );
    assert_eq!(
        danbooru_url("é&*-."),
        "http://danbooru.donmai.us/posts.xml?random=true&limit=1&tags=%C3%A9%26*-."
    );
}

#[test]
fn danbooru_private_channel() {
    let plan = danbooru_plan("!danbooru cat", ChannelKind::Private);
    assert_eq!(reply_text(&plan).unwrap(), "Groups and DMs not supported");
}

#[test]
fn danbooru_needs_tags() {
    let plan = danbooru_plan("!danbooru ", ChannelKind::Guild { nsfw: true });
    assert_eq!(reply_text(&plan).unwrap(), "Specify at least one tag");
}

#[test]
fn danbooru_rating_refused_in_sfw() {
    let plan = danbooru_plan("!danbooru cat rating:e", ChannelKind::Guild { nsfw: false });
    assert_eq!(
        reply_text(&plan).unwrap(),
        "You can only specify the rating in NSFW channels"
    );
}

#[test]
fn danbooru_sfw_search_is_rated_safe() {
    let plan = danbooru_plan("!danbooru cat ears", ChannelKind::Guild { nsfw: false });
    assert_eq!(
        fetch_url(&plan).unwrap(),
        "http://danbooru.donmai.us/posts.xml?random=true&limit=1&tags=cat_ears+rating%3As"
    );
}

#[test]
fn danbooru_nsfw_search_keeps_rating() {
    let plan = danbooru_plan("!danbooru cat, rating:e", ChannelKind::Guild { nsfw: true });
    assert_eq!(
        fetch_url(&plan).unwrap(),
        "http://danbooru.donmai.us/posts.xml?random=true&limit=1&tags=cat+rating%3Ae"
    );
}

const DANBOORU_BODY: &str = "<?xml version=\"1.0\" encoding=\"UTF-8\"?>\n<posts type=\"array\"><post><id type=\"integer\">5</id><file-url>https://cdn.example/a.jpg</file-url></post></posts>";

#[test]
fn danbooru_reply_finds_file_url() {
    assert_eq!(danbooru_reply(DANBOORU_BODY.as_bytes()), "https://cdn.example/a.jpg");
}

#[test]
fn danbooru_reply_without_results() {
    let body = "<?xml version=\"1.0\" encoding=\"UTF-8\"?><posts type=\"array\"></posts>";
    assert_eq!(danbooru_reply(body.as_bytes()), "No results");
    assert_eq!(danbooru_reply(b"not xml at all <"), "No results");
}

#[test]
fn element_text_skips_the_event_after_an_empty_match() {
    // The first `file-url` is followed by another opening tag, which is
    // consumed, so the text after it is not taken.
    let body = "<r><file-url><x>first</x></file-url><file-url>second</file-url></r>";
    let events = parse_body(body.as_bytes());
    let found = first_element_text(&events, &"file-url".to_string());
    assert_eq!(found.unwrap(), "second");
}

#[test]
fn parse_body_reads_events() {
    let events = parse_body(b"<a k=\"v\">t</a>");
    let mut starts = 0;
    let mut texts = Vec::new();
    for e in &events {
        match e {
            XmlEvent::StartElement { name, attributes } => {
                starts += 1;
                assert_eq!(name, "a");
                assert_eq!(attributes.len(), 1);
                assert_eq!(attributes[0].name, "k");
                assert_eq!(attributes[0].value, "v");
            }
            XmlEvent::Characters(t) => texts.push(t.clone()),
            _ => {}
        }
    }
    assert_eq!(starts, 1);
    assert_eq!(texts, vec!["t".to_string()]);
}

#[test]
fn parse_body_reports_malformed() {
    let events = parse_body(b"<a><b></a>");
    assert!(matches!(events.last(), Some(XmlEvent::Malformed)));
}

#[test]
fn find_attribute_cases() {
    let events = parse_body(b"<posts count=\"12\" offset=\"0\"></posts>");
    assert_eq!(find_attribute(&events, &"count".to_string()).ok().unwrap(), "12");
    let events = parse_body(b"<response success=\"false\" reason=\"too many\"/>");
    match find_attribute(&events, &"count".to_string()) {
        Err(AttributeError::NoResults(r)) => assert_eq!(r, "too many"),
        _ => panic!("expected a reason"),
    }
    let events = parse_body(b"<posts offset=\"0\"></posts>");
    assert!(matches!(
        find_attribute(&events, &"count".to_string()),
        Err(AttributeError::Unreadable)
    ));
}

#[test]
fn rule34_plan_cases() {
    assert_eq!(
        reply_text(&rule34_plan("!r34 cat", ChannelKind::Private)).unwrap(),
        "Groups and DMs not supported"
    );
    assert_eq!(
        reply_text(&rule34_plan("!r34 cat", ChannelKind::Guild { nsfw: false })).unwrap(),
        "This command only works in NSFW channels"
    );
    assert_eq!(
        reply_text(&rule34_plan("!r34", ChannelKind::Guild { nsfw: true })).unwrap(),
        "Specify at least one tag"
    );
    assert_eq!(
        fetch_url(&rule34_plan("!r34 cat ears", ChannelKind::Guild { nsfw: true })).unwrap(),
        "https://rule34.xxx/index.php?page=dapi&s=post&q=index&limit=0&pid=0&tags=cat_ears"
    );
}

#[test]
fn rule34_urls() {
    assert_eq!(
        get_amount_url("a b"),
        "https://rule34.xxx/index.php?page=dapi&s=post&q=index&limit=0&pid=0&tags=a+b"
    );
    assert_eq!(
        rule34_url("a b", 42),
        "https://rule34.xxx/index.php?page=dapi&s=post&q=index&limit=1&pid=42&tags=a+b"
    );
}

#[test]
fn get_amount_cases() {
    assert_eq!(get_amount(b"<posts count=\"250\" offset=\"0\"/>"), Ok(250));
    assert_eq!(get_amount(b"<posts count=\"+7\"/>"), Ok(7));
    assert_eq!(
        get_amount(b"<posts count=\"\"/>"),
        Err("cannot parse integer from empty string".to_string())
    );
    assert_eq!(
        get_amount(b"<posts count=\"12a\"/>"),
        Err("invalid digit found in string".to_string())
    );
    assert_eq!(
        get_amount(b"<posts count=\"99999999999999999999\"/>"),
        Err("number too large to fit in target type".to_string())
    );
    assert_eq!(
        get_amount(b"<response reason=\"search down\"/>"),
        Err("No results: search down".to_string())
    );
    assert_eq!(get_amount(b"garbage"), Err("API deserialization failed".to_string()));
}

#[test]
fn number_error_messages() {
    assert_eq!(NumberError::Empty.message(), "cannot parse integer from empty string");
    assert_eq!(NumberError::InvalidDigit.message(), "invalid digit found in string");
    assert_eq!(NumberError::Overflow.message(), "number too large to fit in target type");
}

#[test]
fn after_count_zero_means_no_results() {
    let plan = rule34_after_count("cat", b"<posts count=\"0\"/>");
    assert_eq!(reply_text(&plan).unwrap(), "No Results");
}

#[test]
fn after_count_picks_a_page_below_the_count() {
    for _ in 0..20 {
        let plan = rule34_after_count("cat", b"<posts count=\"3\"/>");
        let url = fetch_url(&plan).unwrap();
        let ok = (0..3).any(|pid| {
            url == format!(
                "https://rule34.xxx/index.php?page=dapi&s=post&q=index&limit=1&pid={}&tags=cat",
                pid
            )
        });
        assert!(ok, "{}", url);
    }
    let plan = rule34_after_count("cat", b"<posts count=\"1\"/>");
    assert_eq!(
        fetch_url(&plan).unwrap(),
        "https://rule34.xxx/index.php?page=dapi&s=post&q=index&limit=1&pid=0&tags=cat"
    );
}

#[test]
fn after_count_failure_is_a_reply() {
    let plan = rule34_after_count("cat", b"<response reason=\"busy\"/>");
    assert_eq!(reply_text(&plan).unwrap(), "No results: busy");
}

#[test]
fn rule34_reply_cases() {
    assert_eq!(
        rule34_reply(b"<posts><post file_url=\"https://img.example/1.png\" id=\"1\"/></posts>"),
        "https://img.example/1.png"
    );
    assert_eq!(rule34_reply(b"<response reason=\"none\"/>"), "No results: none");
    assert_eq!(rule34_reply(b"<posts></posts>"), "API deserialization failed");
}

#[test]
fn normalized_tags_have_no_commas() {
    for msg in ["!d a, b,c ,d", "!d ,,,", "!d x,y, z"] {
        assert!(!normalize_tags(msg).contains(','));
    }
}

#[test]
fn read_count_follows_std() {
    for text in ["", "+", "-", "0", "007", "+12", "-5", "12 ", " 12", "1a9", "18446744073709551615",
        "18446744073709551616", "99999999999999999999x", "1x99999999999999999999", "٣", "+-1"] {
        let ours = read_count(text);
        let std_result = text.parse::<u64>().map_err(|e| match e.kind() {
            std::num::IntErrorKind::Empty => NumberError::Empty,
            std::num::IntErrorKind::InvalidDigit => NumberError::InvalidDigit,
            _ => NumberError::Overflow,
        });
        assert_eq!(ours, std_result, "{:?}", text);
        if let Err(e) = std_result {
            let std_message = text.parse::<u64>().unwrap_err().to_string();
            assert_eq!(e.message(), std_message);
        }
    }
}

#[test]
fn count_overflow_before_a_bad_character() {
    assert_eq!(
        get_amount(b"<posts count=\"99999999999999999999x\"/>"),
        Err("number too large to fit in target type".to_string())
    );
    assert_eq!(
        get_amount(b"<posts count=\"-5\"/>"),
        Err("invalid digit found in string".to_string())
    );
}
