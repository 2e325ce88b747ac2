# tongwen

Rule-based post-processing of speech transcripts into Taiwan Traditional
Chinese, behind an OpenAI-compatible HTTP interface, written in Verus.

The chain, in order (`src/processing/`, `src/convert.rs`, `src/pipeline.rs`):

1. `collapse_repeats`: stuttered characters collapse (我我我 -> 我); known
   reduplicated words (慢慢, 謝謝) and AABB words (吃吃喝喝) stay.
2. `collapse_phrase_repeats`: phrases said three times or more, and filler
   words said twice or more, collapse to one.
3. `normalize_interjections`: 哎/誒 -> 欸, 呃 removed.
4. `fix_tw_pronunciation`: 樂色/乐色/勒色 -> 垃圾, except in 音樂色彩 and the like.
5. `apply_punct_rules`: sentence-final particles and phrases get ？ or ！;
   a lone final 哈 and 好 after a particle become 吼.
6. `format_lists` (only with `lists = true`): 第一…第二… -> numbered lines.
7. `localize_english_punct`: English-dominant lines get ASCII punctuation,
   capitalised sentences and `I`; mixed lines stay.
8. `to_traditional`: the OpenCC S2TW result, with 賬 -> 帳.
9. `strip_short_trailing_period`: a short one-line sentence loses its 。.

Each step is specified over `Seq<char>` and verified, with two exceptions
that rest on outside crates: in step 7 the lone `i` -> `I` replacement is the
`regex` crate's result, of which the library states only that it keeps the
length and turns nothing but some `i` into `I`; step 8 is whatever the
converter handed to the chain returns (`post_process` takes it as a closure),
and the library states what it does with each answer. The laws of the steps
(`law_*` proof functions) sit beside them. `src/server.rs` holds the request
decisions (input message, model, refusals, token counts) and `src/config.rs`
the defaults and the `--config` argument. `app/` runs the HTTP service
(axum), reads the configuration file (toml) and drives the OpenCC converter.
