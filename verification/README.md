# rime_llm

A pinyin input method with a local language-model service, written in Verus. The
composition logic, the dictionary, the ranking rules and the decisions of the daemon
and the model service are verified; the programs around them do the I/O.

## Layout

- `src/` — the verified library.
  - `state` — the composition state machine (keys, paging, commits).
  - `syllable`, `lattice` — syllable segmentation, dictionary word paths, the menu.
  - `lexicon`, `code_lexicon`, `dict_text`, `user_freq` — dictionary tables, dictionary
    and frequency file formats.
  - `order`, `paths`, `predict` — ranking by IEEE-754 score order, next-word predictions.
  - `daemon`, `service`, `context`, `inference`, `settings`, `protocol` — the decisions
    of the daemon and the model service, session contexts, configuration, wire types.
  - `scan`, `text` — string scanning and number parsing used throughout.
- `tests/` — tests of the library.
- `app/` — the daemon and the model service: HTTP and WebSocket handlers, file and
  network I/O, llama.cpp calls and the floating-point scores.

Floating-point scores are computed in `app/` and handed to the library as `f32` bit
patterns, which the library orders by the IEEE-754 total order.
