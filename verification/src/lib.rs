//! Verified core of a Discord bot: tag handling for image-board searches,
//! query construction, reading the boards' XML answers, and the record of
//! Reddit posts already sent to each channel.

pub mod danbooru;
pub mod query;
pub mod recent;
pub mod reddit;
pub mod rule34;
pub mod search;
pub mod text;
pub mod voice;
pub mod xml_events;
