use vstd::prelude::*;

verus! {

/// Where a command was sent.
#[derive(Clone, Copy, PartialEq, Eq, Debug)]
pub enum ChannelKind {
    /// A text channel of a server, marked NSFW or not.
    Guild { nsfw: bool },
    /// A direct message or a group.
    Private,
}

/// What the bot does next while answering a search command.
pub enum SearchPlan {
    /// Answer with this text and stop.
    Reply(String),
    /// Request this URL and hand the response body back.
    Fetch(String),
}

/// The model of a `SearchPlan`.
pub enum SearchPlanModel {
    Reply(Seq<char>),
    Fetch(Seq<char>),
}

impl View for SearchPlan {
    type V = SearchPlanModel;

    open spec fn view(&self) -> SearchPlanModel {
        match self {
            SearchPlan::Reply(text) => SearchPlanModel::Reply(text@),
            SearchPlan::Fetch(url) => SearchPlanModel::Fetch(url@),
        }
    }
}

/// The answer to a search command sent outside a server.
pub fn groups_unsupported() -> (m: String)
    ensures
        m@ == "Groups and DMs not supported"@,
{
    String::from_str("Groups and DMs not supported")
}

/// The answer to a search command without tags.
pub fn tags_missing() -> (m: String)
    ensures
        m@ == "Specify at least one tag"@,
{
    String::from_str("Specify at least one tag")
}

} // verus!
