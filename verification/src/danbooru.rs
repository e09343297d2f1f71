use vstd::prelude::*;

use crate::query::{pair, query_with, serialize_query};
use crate::search::{groups_unsupported, tags_missing, ChannelKind, SearchPlan, SearchPlanModel};
use crate::text::{chars_of, contains_chars, normalize_tags, normalized_tags, occurs_in};
use crate::xml_events::{body_events, element_text, first_element_text, parse_body};

verus! {

/// The text that marks a rating filter in a tag list.
pub open spec fn rating_marker() -> Seq<char> {
    seq!['r', 'a', 't', 'i', 'n', 'g', ':']
}

/// The search URL for the given tags: one random post.
pub open spec fn danbooru_url(tags: Seq<char>) -> Seq<char> {
    query_with(
        "http://danbooru.donmai.us/posts.xml?random=true"@,
        seq![("limit"@, "1"@), ("tags"@, tags)],
    )
}

/// The tags searched for in a channel: as given in an NSFW channel, else
/// restricted to safe posts.
pub open spec fn rated_tags(tags: Seq<char>, nsfw: bool) -> Seq<char> {
    if nsfw {
        tags
    } else {
        tags + " rating:s"@
    }
}

/// What the bot does with a `danbooru` command: outside a server it says so;
/// without tags it asks for them; in a channel that is not NSFW it refuses a
/// rating given by the user; else it searches.
pub open spec fn danbooru_plan_model(content: Seq<char>, channel: ChannelKind) -> SearchPlanModel {
    match channel {
        ChannelKind::Private => SearchPlanModel::Reply("Groups and DMs not supported"@),
        ChannelKind::Guild { nsfw } => {
            let tags = normalized_tags(content);
            if tags.len() == 0 {
                SearchPlanModel::Reply("Specify at least one tag"@)
            } else if !nsfw && occurs_in(tags, rating_marker()) {
                SearchPlanModel::Reply("You can only specify the rating in NSFW channels"@)
            } else {
                SearchPlanModel::Fetch(danbooru_url(rated_tags(tags, nsfw)))
            }
        },
    }
}

/// The search URL for the given tags.
pub fn get_url(tags: &str) -> (url: String)
    ensures
        url@ == danbooru_url(tags@),
{
    let mut pairs: Vec<(String, String)> = Vec::new();
    pairs.push(pair("limit", "1"));
    pairs.push(pair("tags", tags));
    let url = serialize_query("http://danbooru.donmai.us/posts.xml?random=true", &pairs);
    assert(crate::query::pairs_view(pairs@) =~= seq![("limit"@, "1"@), ("tags"@, tags@)]);
    url
}

/// The first step of the `danbooru` command, from the message text and the
/// channel it came from.
pub fn danbooru_plan(content: &str, channel: ChannelKind) -> (plan: SearchPlan)
    ensures
        plan@ == danbooru_plan_model(content@, channel),
{
    match channel {
        ChannelKind::Private => SearchPlan::Reply(groups_unsupported()),
        ChannelKind::Guild { nsfw } => {
            let mut tags = normalize_tags(content);
            if tags.as_str().is_empty() {
                return SearchPlan::Reply(tags_missing());
            }
            if !nsfw {
                let chars = chars_of(tags.as_str());
                let marker: Vec<char> = vec!['r', 'a', 't', 'i', 'n', 'g', ':'];
                assert(marker@ =~= rating_marker());
                if contains_chars(&chars, &marker) {
                    return SearchPlan::Reply(
                        String::from_str("You can only specify the rating in NSFW channels"),
                    );
                }
                tags.append(" rating:s");
            }
            SearchPlan::Fetch(get_url(tags.as_str()))
        },
    }
}

/// The answer to a `danbooru` search from the response body: the text of the
/// first `file-url` element, or "No results".
pub open spec fn danbooru_reply_model(body: Seq<u8>) -> Seq<char> {
    match element_text(body_events(body), "file-url"@) {
        Some(url) => url,
        None => "No results"@,
    }
}

/// The answer to a `danbooru` search, from the response body.
pub fn danbooru_reply(body: &[u8]) -> (reply: String)
    ensures
        reply@ == danbooru_reply_model(body@),
{
    let events = parse_body(body);
    match first_element_text(&events, &String::from_str("file-url")) {
        Some(url) => url,
        None => String::from_str("No results"),
    }
}

/// In a channel that is not NSFW, every search the `danbooru` command makes
/// is for safe posts, with tags in which the user named no rating.
pub proof fn law_sfw_danbooru_searches_are_safe(content: Seq<char>)
    ensures
        danbooru_plan_model(content, ChannelKind::Guild { nsfw: false }) matches SearchPlanModel::Fetch(
            url,
        ) ==> (exists|tags: Seq<char>|
            !occurs_in(tags, rating_marker()) && url == danbooru_url(tags + " rating:s"@)),
{
    let tags = normalized_tags(content);
    if danbooru_plan_model(content, ChannelKind::Guild { nsfw: false }) is Fetch {
        assert(!occurs_in(tags, rating_marker()) && danbooru_plan_model(
            content,
            ChannelKind::Guild { nsfw: false },
        ) == SearchPlanModel::Fetch(danbooru_url(tags + " rating:s"@)));
    }
}

/// In an NSFW channel the tags are searched exactly as the command gave
/// them (normalized): no rating is added and a rating given is kept.
pub proof fn law_nsfw_danbooru_searches_tags_as_given(content: Seq<char>)
    ensures
        normalized_tags(content).len() > 0 ==> danbooru_plan_model(
            content,
            ChannelKind::Guild { nsfw: true },
        ) == SearchPlanModel::Fetch(danbooru_url(normalized_tags(content))),
        normalized_tags(content).len() == 0 ==> danbooru_plan_model(
            content,
            ChannelKind::Guild { nsfw: true },
        ) == SearchPlanModel::Reply("Specify at least one tag"@),
{
}

/// In a channel that is not NSFW, tags that name no rating are searched
/// with ` rating:s` appended, and tags that name one are refused.
pub proof fn law_sfw_danbooru_search_adds_safe_rating(content: Seq<char>)
    ensures
        normalized_tags(content).len() > 0 && !occurs_in(normalized_tags(content), rating_marker())
            ==> danbooru_plan_model(content, ChannelKind::Guild { nsfw: false })
            == SearchPlanModel::Fetch(danbooru_url(normalized_tags(content) + " rating:s"@)),
        occurs_in(normalized_tags(content), rating_marker()) ==> danbooru_plan_model(
            content,
            ChannelKind::Guild { nsfw: false },
        ) == SearchPlanModel::Reply("You can only specify the rating in NSFW channels"@),
{
}

} // verus!
