# ssd_llm

The decision-making core of a local language-model runtime that streams its
weights from disk, and of the vector index that goes with it. Every function
with a body under `src/` carries a contract that Verus proves, but for the
wrappers named below. The traits `Embedder`, `Store`, `Chunker` and `Tool` are
for users to implement; what their methods promise is left to the implementer.
`PathStyle::current` asks the platform how paths are written there and promises
nothing of the answer; everything that reads paths is stated for either style.

## What is in the library

| Area | Modules |
|------|---------|
| Numbers and text | `single`, `text`, `paths`, `json` |
| Sampling | `selection`, `sampler`, `sampling`, `constraint` |
| Model files | `model`, `loader`, `streamer`, `prefetch`, `cuda`, `transformer` |
| Tool-using agent | `agent`, `slots`, `scan`, `tools`, `search`, `symbols` |
| Index | `chunk`, `store`, `records`, `retrieve`, `walk`, `ollama`, `prune` |

The library does no floating-point arithmetic and no input or output.
A single-precision number is a `Single`, its bit pattern: the library orders,
selects, stores and decodes such numbers. Where a computation needs sums or
exponentials, the library says what is needed next (`Next`, `PrefillStep`,
`GpuOp`, `Request`) and takes the results back as arguments.

## What is trusted

Calls into `blake3` and `serde_json`, and a few functions of the standard
library, stand behind small wrappers. Each has a doc comment that names the
function it calls and says what is claimed of it.

## Around the library

`app/` holds the program: files, network, threads, the device, and the
arithmetic. `tests/` exercises the library on concrete values.
