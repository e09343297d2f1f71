use vstd::prelude::*;

verus! {

/// What the bot does next while answering a voice command.
pub enum VoiceStep {
    /// Answer the author with this text.
    Reply(String),
    /// Say this text in the channel.
    Say(String),
    /// Join this voice channel of this server.
    Join { guild: u64, channel: u64 },
    /// Leave the voice channel of this server.
    Leave { guild: u64 },
    /// Load this URI and play it in this server's voice channel.
    Play { guild: u64, uri: String },
    /// Nothing more to do.
    Done,
}

/// The model of a `VoiceStep`.
pub enum VoiceStepModel {
    Reply(Seq<char>),
    Say(Seq<char>),
    Join { guild: u64, channel: u64 },
    Leave { guild: u64 },
    Play { guild: u64, uri: Seq<char> },
    Done,
}

impl View for VoiceStep {
    type V = VoiceStepModel;

    open spec fn view(&self) -> VoiceStepModel {
        match self {
            VoiceStep::Reply(t) => VoiceStepModel::Reply(t@),
            VoiceStep::Say(t) => VoiceStepModel::Say(t@),
            VoiceStep::Join { guild, channel } => VoiceStepModel::Join {
                guild: *guild,
                channel: *channel,
            },
            VoiceStep::Leave { guild } => VoiceStepModel::Leave { guild: *guild },
            VoiceStep::Play { guild, uri } => VoiceStepModel::Play { guild: *guild, uri: uri@ },
            VoiceStep::Done => VoiceStepModel::Done,
        }
    }
}

/// `join`: the server the message came from (if any) and the voice channel
/// its author is in there (if any).
pub fn join(guild: Option<u64>, author_channel: Option<u64>) -> (step: VoiceStep)
    ensures
        step@ == match guild {
            None => VoiceStepModel::Reply("Groups and DMs are not supported"@),
            Some(g) => match author_channel {
                None => VoiceStepModel::Reply("You are not in a voice channel"@),
                Some(c) => VoiceStepModel::Join { guild: g, channel: c },
            },
        },
{
    match guild {
        None => VoiceStep::Reply(String::from_str("Groups and DMs are not supported")),
        Some(g) => match author_channel {
            None => VoiceStep::Reply(String::from_str("You are not in a voice channel")),
            Some(c) => VoiceStep::Join { guild: g, channel: c },
        },
    }
}

/// After trying to join: whether it worked.
pub fn joined(ok: bool) -> (step: VoiceStep)
    ensures
        step@ == if ok {
            VoiceStepModel::Done
        } else {
            VoiceStepModel::Say("Error joining the channel"@)
        },
{
    if ok {
        VoiceStep::Done
    } else {
        VoiceStep::Say(String::from_str("Error joining the channel"))
    }
}

/// `leave`: the server of the message's channel (if it is one) and whether
/// the bot has a voice handler there.
pub fn leave(guild: Option<u64>, has_handler: bool) -> (step: VoiceStep)
    ensures
        step@ == match guild {
            None => VoiceStepModel::Say("Groups and DMs not supported"@),
            Some(g) => if has_handler {
                VoiceStepModel::Leave { guild: g }
            } else {
                VoiceStepModel::Reply("Not in a voice channel"@)
            },
        },
{
    match guild {
        None => VoiceStep::Say(String::from_str("Groups and DMs not supported")),
        Some(g) => if has_handler {
            VoiceStep::Leave { guild: g }
        } else {
            VoiceStep::Reply(String::from_str("Not in a voice channel"))
        },
    }
}

/// `play`: the URI argument (if one was given), the server of the message's
/// channel (if it is one) and whether the bot has a voice handler there.
pub fn play(uri: Option<String>, guild: Option<u64>, has_handler: bool) -> (step: VoiceStep)
    ensures
        step@ == match uri {
            None => VoiceStepModel::Say("Must provide a URI to a video or audio"@),
            Some(u) => match guild {
                None => VoiceStepModel::Say("Groups and DMs not supported"@),
                Some(g) => if has_handler {
                    VoiceStepModel::Play { guild: g, uri: u@ }
                } else {
                    VoiceStepModel::Say("Not in a voice channel to play in"@)
                },
            },
        },
{
    match uri {
        None => VoiceStep::Say(String::from_str("Must provide a URI to a video or audio")),
        Some(u) => match guild {
            None => VoiceStep::Say(String::from_str("Groups and DMs not supported")),
            Some(g) => if has_handler {
                VoiceStep::Play { guild: g, uri: u }
            } else {
                VoiceStep::Say(String::from_str("Not in a voice channel to play in"))
            },
        },
    }
}

/// After trying to load the source: whether it worked.
pub fn played(ok: bool) -> (step: VoiceStep)
    ensures
        step@ == if ok {
            VoiceStepModel::Say("Playing song"@)
        } else {
            VoiceStepModel::Say("Failed to play URI"@)
        },
{
    if ok {
        VoiceStep::Say(String::from_str("Playing song"))
    } else {
        VoiceStep::Say(String::from_str("Failed to play URI"))
    }
}

} // verus!
