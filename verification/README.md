# frostbit

Frozen, mmap-friendly roaring bitmaps with verified set operations.

A frozen bitmap is a roaring bitmap serialized into a compact, aligned byte buffer that is
queried straight from its bytes. This crate builds such bitmaps, validates and reads them,
folds them with AND, OR and DIFF, and evaluates boolean trees of them. Every function of the
library is proved against a contract that says what it does to sets of `u32`. The bytes that
the builder, the `_compact` ops and trees write are a function of the values alone, and are
pinned down as well; of the op-ready results of the `_fast` ops the layout is, and the form of
each container but for a few of a difference.

```rust
use frostbit::{intersect_fast, BitmapExpr, FrozenBitmapBuilder};

let mut b = FrozenBitmapBuilder::new();
b.extend_sorted(&[10, 20, 70_000]);
let bm = b.finish();
assert!(bm.view().contains(20));

let both = intersect_fast(&[bm.view(), bm.view()]);
let none = BitmapExpr::difference(BitmapExpr::leaf(bm.view()), BitmapExpr::from(both));
assert!(none.materialize().is_empty());
```

## Layout

| Modules | What they hold |
|---|---|
| `model`, `format`, `container`, `frozen`, `canon` | sets and blocks, the wire format, payloads, what bytes stand for, which bytes are written |
| `builder`, `bitmap`, `view`, `iter`, `convert`, `buffer` | building, owning, validating, reading; `roaring` interop; the aligned buffer |
| `arrays`, `words`, `run`, `accum` | kernels on arrays, bitmaps and runs |
| `decide`, `plan`, `shape` | how big a result can get: slots for an op, shapes for a tree |
| `source`, `cursor`, `walk`, `keymask`, `arena`, `fold` | inputs, merging walks, masks, the working arena |
| `intersect`, `union`, `difference`, `encode` | the N-way ops, and their results encoded for storage |
| `expr`, `machine`, `depth`, `usage`, `exec` | boolean trees: analysis, what a manifest means, how deep it gets and what memory it asks for, running it |
| `pool`, `memory` | budgets for working memory, and the buffers ops borrow |
| `laws` | what holds of several functions together |
| `workload`, `corpus`, `treegen`, `audit`, `trials`, `engines` | workloads, tree corpora and their measurement |

`app/` is ordinary Rust around the library: thread-local pools, hashing and iteration
adapters, samplers, timing and reports.

## What is taken on trust

`AVec` of `aligned-vec` holds the bytes, and `RoaringBitmap` of `roaring` is read and filled
through its documented methods. Their contracts stand beside the wrappers in `buffer`,
`convert` and `engines`; three functions of the standard library are specified in `machine`,
`view` and `words`.
