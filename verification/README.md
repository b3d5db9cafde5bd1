# demotracer_converter

Turns CS2 demos into per-player `.dtr` replay archives. The decisions of the
converter are a Verus-verified library under `src/`:

- `content`, `demo_input`, `digest`, `demo_series`: demo files, their logical
  content (zstd decompression under a size limit) and identity hashes, and
  the grouping of segmented demos into one source.
- `game_event`, `event_text`, `round_phase`, `gap_repair`, `motion`,
  `avatar`: decoding of game events and player texts, the repair of round
  phase flags from the events, the rows owed to short holes in the global
  tick sequence, the row each observed velocity is taken from, and the
  evidence-gated avatar overrides.
- `segment_rounds`, `segment_merge`: the rounds a segment completes and the
  merge of segments into one demo.
- `quality`, `round_export`: round analysis, and the plan of what an export
  writes (selected rounds, pre-roll, cut before the bomb plant, the players
  and rows of each file, and file paths).
- `catalog`, `cosmetics`, `weapon_evidence`, `playback`, `inspect_link`:
  cosmetic evidence and inspect links.
- `round_replay`, `economy`, `hifi`, `source_state`, `model`, `text`:
  per-round replay metadata and shared data.

`app/` holds what the library cannot: file system access, JSON, and the
floating-point parts (tick-rate agreement, durations, the per-player
comparison of the economy class).
