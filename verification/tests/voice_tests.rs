use discord_bot::voice::{join, joined, leave, play, played, VoiceStep};

fn text(step: &VoiceStep) -> String {
    match step {
        VoiceStep::Reply(t) | VoiceStep::Say(t) => t.clone(),
        _ => String::new(),
    }
}

#[test]
fn join_steps() {
    assert_eq!(text(&join(None, Some(3))), "Groups and DMs are not supported");
    assert_eq!(text(&join(Some(1), None)), "You are not in a voice channel");
    assert!(matches!(join(Some(1), Some(3)), VoiceStep::Join { guild: 1, channel: 3 }));
    assert!(matches!(joined(true), VoiceStep::Done));
    assert!(matches!(joined(false), VoiceStep::Say(_)));
    assert_eq!(text(&joined(false)), "Error joining the channel");
}

#[test]
fn leave_steps() {
    assert!(matches!(leave(None, true), VoiceStep::Say(_)));
    assert_eq!(text(&leave(None, true)), "Groups and DMs not supported");
    assert!(matches!(leave(Some(5), true), VoiceStep::Leave { guild: 5 }));
    assert!(matches!(leave(Some(5), false), VoiceStep::Reply(_)));
    assert_eq!(text(&leave(Some(5), false)), "Not in a voice channel");
}

#[test]
fn play_steps() {
    assert_eq!(text(&play(None, Some(1), true)), "Must provide a URI to a video or audio");
    assert_eq!(text(&play(Some("u".to_string()), None, true)), "Groups and DMs not supported");
    assert_eq!(
        text(&play(Some("u".to_string()), Some(1), false)),
        "Not in a voice channel to play in"
    );
    match play(Some("https://v".to_string()), Some(9), true) {
        VoiceStep::Play { guild, uri } => {
            assert_eq!(guild, 9);
            assert_eq!(uri, "https://v");
        }
        _ => panic!("expected to play"),
    }
    assert_eq!(text(&played(true)), "Playing song");
    assert_eq!(text(&played(false)), "Failed to play URI");
}
