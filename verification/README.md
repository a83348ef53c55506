# quasar

The arithmetic, the data pipeline and the decisions behind a small hybrid
Mamba-3 language model, written in Rust and proved with Verus.

`src/` is the library. Every function in it carries a contract, and the
properties that span functions stand beside them as public proof functions.

| module | what it holds |
| --- | --- |
| `config` | the model family: shapes, validity, parameters, FLOPs, activations, and which of them can be counted |
| `preset` | the shipped presets, and what the command line changes about them |
| `data::corpus`, `data::path` | which files are documents, in which order, and what each yields |
| `data::tokenizer`, `data::description` | the byte-level BPE tokenizer around the `tokenizers` crate, and which descriptions of one are read |
| `data::prepare` | splitting and mixing tokenised documents, all at once or as they are read |
| `data::shard`, `data::batch` | splits, and the windows that are drawn from them |
| `generate` | what a model is shown, which tokens are candidates, when to stop |
| `generate::factorio` | the grammar and the geometry of Factorio blueprints |
| `prompts` | the prompts of a sweep, and what is written down for each |
| `train` | the training loop's decisions, the loss scale, checkpoints, the dashboard |
| `model` | the plans of the network's custom operations |
| `probe` | synthetic data for probing a training recipe |
| `eval` | how much of the held-out split a validation pass covers |
| `json`, `text`, `decimal`, `math` | JSON values, spelled numbers, words and products that fit |

Where a function calls an outside crate, the call stands in a small trusted
function whose doc comment says what is taken on trust of it.

`app/` is the program around the library: the command line, files, progress
bars, and everything that runs on floating-point tensors. It needs `burn` with
its `autodiff`, `optim`, `store`, `train`, `tui`, `extension` and `flex`
features, and `burn-mamba`.

`tests/` runs the library with the real outside crates.
