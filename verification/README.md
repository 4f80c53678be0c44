# trendy_cli

A command-line reader for Hacker News top stories, a subreddit's top posts and
an AI chat service (HackClubAI), with an interactive mode.

- `src/` is the library, verified with Verus: the requests made to each
  service, the decoding of the streamed chat answer (lines, `data: ` chunks,
  the `[DONE]` marker), the interactive commands, the chosen model, the API key
  precedence, number parsing and rendering, trimming and padding, and the text
  of the story, post and answer views. Each public function states its result
  in its contract; `lemma_*` proof functions state the properties that span
  several calls.
- `app/` is the program around it: command-line flags, the terminal, the
  configuration file and the network.
- `tests/` runs the library on concrete values.
