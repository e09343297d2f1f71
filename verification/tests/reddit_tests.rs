use discord_bot::reddit::{comments_url, reddit_comments, PostError, RedditPost, RedditSearch};

fn post(name: &str, url: Option<&str>, stickied: bool, nsfw: bool) -> RedditPost {
    RedditPost {
        name: name.to_string(),
        subreddit: "pics".to_string(),
        link_url: url.map(|u| u.to_string()),
        stickied,
        nsfw,
    }
}

fn listing() -> Vec<RedditPost> {
    vec![
        post("t3_sticky", Some("https://x/sticky"), true, false),
        post("t3_self", None, false, false),
        post("t3_lewd", Some("https://x/lewd"), false, true),
        post("t3_aaa", Some("https://x/a"), false, false),
        post("t3_bbb", Some("https://x/b"), false, false),
    ]
}

#[test]
fn new_search_knows_nothing() {
    let mut s = RedditSearch::new();
    assert_eq!(s.get_comments("pics".to_string(), 1, 0), None);
}

#[test]
fn get_post_skips_stickied_self_and_nsfw() {
    let mut s = RedditSearch::new();
    let posts = listing();
    assert_eq!(s.get_post("pics".to_string(), 1, false, &posts), Ok("https://x/a".to_string()));
}

#[test]
fn get_post_takes_nsfw_in_nsfw_channel() {
    let mut s = RedditSearch::new();
    let posts = listing();
    assert_eq!(s.get_post("pics".to_string(), 1, true, &posts), Ok("https://x/lewd".to_string()));
}

#[test]
fn get_post_never_repeats_then_runs_out() {
    let mut s = RedditSearch::new();
    let posts = listing();
    assert_eq!(s.get_post("pics".to_string(), 1, false, &posts), Ok("https://x/a".to_string()));
    assert_eq!(s.get_post("pics".to_string(), 1, false, &posts), Ok("https://x/b".to_string()));
    assert_eq!(s.get_post("pics".to_string(), 1, false, &posts), Err(PostError::NoSfwUrls));
    assert_eq!(s.get_post("pics".to_string(), 1, true, &posts), Ok("https://x/lewd".to_string()));
    assert_eq!(s.get_post("pics".to_string(), 1, true, &posts), Err(PostError::NoUrls));
}

#[test]
fn records_are_per_channel_and_subreddit() {
    let mut s = RedditSearch::new();
    let posts = listing();
    assert_eq!(s.get_post("pics".to_string(), 1, false, &posts), Ok("https://x/a".to_string()));
    assert_eq!(s.get_post("pics".to_string(), 2, false, &posts), Ok("https://x/a".to_string()));
    assert_eq!(s.get_post("aww".to_string(), 1, false, &posts), Ok("https://x/a".to_string()));
    assert_eq!(s.get_comments("aww".to_string(), 2, 0), None);
}

#[test]
fn comments_follow_posts_newest_first() {
    let mut s = RedditSearch::new();
    let posts = listing();
    s.get_post("pics".to_string(), 7, false, &posts).unwrap();
    assert_eq!(
        s.get_comments("pics".to_string(), 7, 0),
        Some(("pics".to_string(), "aaa".to_string()))
    );
    s.get_post("pics".to_string(), 7, false, &posts).unwrap();
    assert_eq!(
        s.get_comments("pics".to_string(), 7, 0),
        Some(("pics".to_string(), "bbb".to_string()))
    );
    assert_eq!(
        s.get_comments("pics".to_string(), 7, 1),
        Some(("pics".to_string(), "aaa".to_string()))
    );
    assert_eq!(s.get_comments("pics".to_string(), 7, 2), None);
}

#[test]
fn only_first_hundred_posts_are_read() {
    let mut posts: Vec<RedditPost> = (0..100)
        .map(|i| post(&format!("t3_s{}", i), Some("https://x/s"), true, false))
        .collect();
    posts.push(post("t3_late", Some("https://x/late"), false, false));
    let mut s = RedditSearch::new();
    assert_eq!(s.get_post("pics".to_string(), 1, false, &posts), Err(PostError::NoSfwUrls));
}

#[test]
fn record_keeps_the_newest_hundred() {
    let posts: Vec<RedditPost> = (0..150)
        .map(|i| post(&format!("t3_p{}", i), Some("https://x/p"), false, false))
        .collect();
    let mut s = RedditSearch::new();
    for _ in 0..101 {
        s.get_post("pics".to_string(), 1, false, &posts[0..100].to_vec()).ok();
    }
    // 100 posts were sent; the listing of the first 100 is used up.
    assert_eq!(
        s.get_comments("pics".to_string(), 1, 99),
        Some(("pics".to_string(), "p0".to_string()))
    );
    assert_eq!(s.get_comments("pics".to_string(), 1, 100), None);
    // A new post pushes the oldest out.
    s.get_post("pics".to_string(), 1, false, &posts[100..].to_vec()).unwrap();
    assert_eq!(
        s.get_comments("pics".to_string(), 1, 0),
        Some(("pics".to_string(), "p100".to_string()))
    );
    assert_eq!(
        s.get_comments("pics".to_string(), 1, 99),
        Some(("pics".to_string(), "p1".to_string()))
    );
    // p0 was forgotten, so it can be sent again.
    assert!(s.get_post("pics".to_string(), 1, false, &posts[0..100].to_vec()).is_ok());
    assert_eq!(
        s.get_comments("pics".to_string(), 1, 0),
        Some(("pics".to_string(), "p0".to_string()))
    );
}

#[test]
fn post_id_is_name_without_prefix() {
    let mut s = RedditSearch::new();
    let posts = vec![post("t3_ünï", Some("https://x/u"), false, false)];
    s.get_post("pics".to_string(), 1, false, &posts).unwrap();
    assert_eq!(
        s.get_comments("pics".to_string(), 1, 0),
        Some(("pics".to_string(), "ünï".to_string()))
    );
}

#[test]
fn uncuttable_name_after_a_pick_is_never_reached() {
    let mut s = RedditSearch::new();
    let posts = vec![
        post("t3_ok", Some("https://x/ok"), false, false),
        post("é", Some("https://x/e"), false, false),
    ];
    assert_eq!(
        s.try_get_post("pics".to_string(), 1, false, &posts),
        Some(Ok("https://x/ok".to_string()))
    );
    assert_eq!(s.try_get_post("pics".to_string(), 1, false, &posts), None);
    let skipped = vec![post("é", Some("https://x/e"), true, false)];
    assert_eq!(
        s.try_get_post("pics".to_string(), 1, false, &skipped),
        Some(Err(PostError::NoSfwUrls))
    );
}

#[test]
fn hundred_sends_are_distinct() {
    let posts: Vec<RedditPost> = (0..100)
        .map(|i| post(&format!("t3_q{}", i), Some(&format!("https://x/{}", i)), false, false))
        .collect();
    let mut s = RedditSearch::new();
    let mut seen = std::collections::HashSet::new();
    for round in 0..100 {
        let url = s.get_post("pics".to_string(), 4, false, &posts).unwrap();
        s.get_comments("pics".to_string(), 4, round);
        s.get_post("other".to_string(), 4, false, &posts).unwrap();
        assert!(seen.insert(url));
    }
    assert_eq!(s.get_post("pics".to_string(), 4, false, &posts), Err(PostError::NoSfwUrls));
}

#[test]
fn older_posts_move_down_after_a_send() {
    let mut s = RedditSearch::new();
    let posts = listing();
    s.get_post("pics".to_string(), 2, false, &posts).unwrap();
    let before0 = s.get_comments("pics".to_string(), 2, 0);
    s.get_post("pics".to_string(), 2, false, &posts).unwrap();
    assert_eq!(s.get_comments("pics".to_string(), 2, 1), before0);
}

#[test]
fn post_error_messages() {
    assert_eq!(PostError::NoUrls.message(), "Found no URLs in most recent 100 posts");
    assert_eq!(
        PostError::NoSfwUrls.message(),
        "Found no SFW URLs in the most recent 100 posts"
    );
}

#[test]
fn comments_link_format() {
    assert_eq!(comments_url("pics", "abc"), "https://reddit.com/r/pics/comments/abc/");
}

#[test]
fn reddit_comments_cases() {
    let mut s = RedditSearch::new();
    assert_eq!(
        reddit_comments(&mut s, "pics".to_string(), 3, None),
        Err("No post for that subreddit was sent previously".to_string())
    );
    s.get_post("pics".to_string(), 3, false, &listing()).unwrap();
    s.get_post("pics".to_string(), 3, false, &listing()).unwrap();
    assert_eq!(
        reddit_comments(&mut s, "pics".to_string(), 3, None),
        Ok("https://reddit.com/r/pics/comments/bbb/".to_string())
    );
    assert_eq!(
        reddit_comments(&mut s, "pics".to_string(), 3, Some(2)),
        Ok("https://reddit.com/r/pics/comments/aaa/".to_string())
    );
    assert_eq!(
        reddit_comments(&mut s, "pics".to_string(), 3, Some(3)),
        Err("No post for that subreddit was sent previously".to_string())
    );
}

#[test]
fn try_get_post_refuses_uncuttable_names() {
    let mut s = RedditSearch::new();
    let bad = vec![post("é", Some("https://x/e"), false, false)];
    assert_eq!(s.try_get_post("pics".to_string(), 1, false, &bad), None);
    assert_eq!(s.get_comments("pics".to_string(), 1, 0), None);
    assert_eq!(
        s.try_get_post("pics".to_string(), 1, false, &listing()),
        Some(Ok("https://x/a".to_string()))
    );
    assert_eq!(
        s.try_get_post("pics".to_string(), 1, false, &vec![]),
        Some(Err(PostError::NoSfwUrls))
    );
}
