# razel_action

The execution nodes of a build graph, with their behaviour stated as contracts and proved by Verus.

- `keys`: the keys of action, artifact and completion nodes, their canonical encodings, and decoders
  that fail closed.
- `fingerprint`: the content fingerprint of an action, its encoding and its decoder.
- `outputs`: the artifacts that the actions of a target declare; a path that is declared twice is a
  conflict.
- `seams`: where an input path leads to (`InputResolver`), and where bytes are kept (`BlobStore`).
- `nodes`, `action`: the decisions of the three nodes, stage by stage.
- `values`, `graph`, `target`, `spawn`, `digest`, `error`: what goes in and out.
- `codec`, `order`, `string_map`, `text`: the bytes, orders and texts below all that.

Properties that hold across functions are the public proof functions named `law_..`.

`app/` is the outer side: it connects the stages to the engine, the analysis, the file system and the
spawn strategies.
