# wavemark

An audio annotation tool built for handing work to an AI agent: mark ranges of
an audio file, print them with exact time ranges for an agent, merge the
agent's edits back, and do the everyday cuts and splits.

The library under `src/` is written in Verus and verified: every public
function carries a contract, and the laws of the library (a refused patch costs
the rest of the batch nothing, an echoed payload changes nothing, split parts
join back to the buffer, a cut is undone by putting the removed frames back,
redo takes back undo, ...) are proved as proof functions.

| module | what it holds |
|---|---|
| `model` | time ranges (as order-preserving integer time keys), annotations, the session, the merge of an agent's patches, validation, pruning, generated marks |
| `report` | the merge report and refusals |
| `time` | `M:SS.mmm` formatting and the reading of typed timestamps and ranges |
| `text` | character-level helpers (trimming, splitting, decimal rendering) |
| `names` | sidecar paths, file-name slugs, batch file names, shortened labels, schema names |
| `silence` | maximal runs of matching peak buckets |
| `dsp` | splitting, joining, cut points, segments, removing frames |
| `window` | the playback window over an interleaved buffer |
| `history` | bounded undo and redo |
| `keys` | keyboard shortcuts |

`app/` is the `wavemark` command line around the library: argument parsing,
decoding and writing audio, JSON files, and the floating-point level and time
arithmetic. It converts seconds to time keys at its edge.

`tests/` exercises the library on concrete values.
