# eullm

The logic of an inference server for GGUF models, verified with Verus: what the
server decides, parses and answers. Files, threads, HTTP and llama.cpp are in
`app/`, which carries out what the library decides.

- `src/inference/` – the generation loop, the batch scheduler and its prefix
  cache, output filtering, stream events, sampling stages, KV cache types and sizes, and the
  TurboQuant codebooks.
- `src/fit.rs`, `src/gguf.rs`, `src/gguf_patch.rs` – reading GGUF headers, sizing
  a model against the free VRAM, and patching headers.
- `src/api/` – who is let in (keys, addresses, origins), model names and loading,
  requests, replies, listings and idle unloading.
- `src/chat_template.rs`, `src/audit.rs`, `src/banner.rs`, `src/lineedit.rs` –
  prompts, the audit trail, the load banner and the line editor.
- `src/text.rs`, `src/json.rs` – text and JSON values, with their models.

Contracts speak of text as sequences of characters, of JSON as trees, of clocks as
nanoseconds. Functions named `law_*` state what holds across functions. Floating
point does not occur: such values are exact fractions, decimals or bit patterns.
