# discord_bot

A Discord bot whose decisions are verified with Verus.

- `src/` is the verified library:
  - `text`: search tags from a command message, substring search, decimal text;
  - `query`: form-encoded query strings (through `url::form_urlencoded`);
  - `xml_events`: XML answers read through `xml-rs`, and the walks that find
    an element's text or an attribute's value;
  - `search`, `danbooru`, `rule34`: the steps of the image-board commands;
  - `recent`, `reddit`: the record of Reddit posts sent to each channel,
    kept in `circular_queue` queues of 100;
  - `voice`: the steps of the voice commands.
- `app/` is the bot itself: Discord through poise/serenity, HTTP through
  reqwest, Reddit listings through rawr.
- `tests/` runs the library on concrete inputs.
