# mnemosyne

A story telling engine for a Discord bot, verified with Verus.

- `src/parser.rs`: the grammar of story files (blocks `[ID]`, their text,
  and commands `\TARGET (word){label}`), each parser specified by a spec
  function over the characters of its input.
- `src/story.rs`: the story graph built from parsed blocks, how a block is
  shown, and the depth-first listing of the blocks reachable from one.
- `src/bot.rs`: the state of the bot (loaded stories, the story selected,
  where each user stands) and what each chat command changes and answers,
  with laws that relate the commands.
- `src/response.rs`, `src/files.rs`, `src/story2.rs`: smaller pieces.
- `app/`: the Discord client, file reading and start-up around the library.
