# Palimpsest

A self-editing scratchpad: output is produced through iterative span-level
revision of a draft rather than in a single pass.

1. The **Drafter** writes an initial draft into a private scratchpad.
2. The **Router** reads the Drafter's activations and scores every position; the
   positions above a threshold are merged into spans.
3. The **Critic** weighs the spans. The loop halts when no span that was not yet
   inspected on its present content weighs enough.
4. The **Editor** predicts a same-length replacement for the heaviest span. It is
   applied and logged unless it changes nothing.

Everything is validated on a synthetic key-value recall task:

```
BOS  K3 V1  K0 V7  K5 V2  K6 V4  SEP  K5 QUERY  V2  EOS
```

## Layout

- `src/` is the library, verified with Verus. It holds the scratchpad and the edit
  loop, the task and its vocabulary, batching, ablation labels, corruptions, and
  the rank statistics that judge the models. Each function states what it returns;
  laws that span several functions are public `proof fn`s beside them.
- `tests/` runs the library on concrete values.
- `app/` is the command line around it: the models themselves (tensor arithmetic in
  floating point), training, checkpoints and files.

Random draws come from `rand`'s seeded `StdRng`, whose calls are wrapped in
`src/random.rs`; token batches become `burn` tensor contents in `src/batch.rs`. The
contracts of these wrappers, and that of `String::push` in `src/text.rs`, are taken
on trust.

Among the dependencies, `burn-core` is the part of `burn` that stores checkpoints. It
is listed by itself so that its file recorders are switched on without the rest of
what `burn`'s `std` feature brings along.
