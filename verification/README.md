# Talos

A minimal LLM inference engine: it loads a GGUF model, runs a Llama-style
forward pass with a KV cache, and samples tokens. The library is written in
Verus; the program around it is ordinary Rust.

```sh
talos inspect models/tiny.gguf
talos run models/tiny.gguf --prompt "Once upon a time" -n 128 --temp 0.8
talos perplexity models/tiny.gguf corpus.txt
```

## What is verified

Everything but floating-point arithmetic, and input and output:

- `gguf` reads files. The grammar of the format is a specification, and reading
  a file that was laid out by the format gives back its metadata, its tensor
  index and its tensor data.
- `tokenizer` holds byte-level BPE and SentencePiece. Both merge pieces by
  priority; the linked list and the priority queue of SentencePiece are proved
  to merge as the plain definition does. Decoding undoes encoding.
- `model` reads hyperparameters, binds weights by name, and runs the forward
  pass. A plan says which operation runs on which weights and buffers; it fits
  the weights, and reads nothing before it is set. A decode step adds one row to
  the cache of every layer, and attention sees the row of its own step. Query
  heads that share a kv head attend as if each had a copy of it, and a model with
  such copies gives the same logits, under arithmetic that always gives the same.
- `math` holds the loops of the numeric kernels: norms, softmax, rotary
  embedding, products with quantized rows, and what a GPU keeps resident.
- `kv_cache` keeps keys and values.
- `sample`, `generate`, `eval` and `cli` hold ranking and drawing of candidates,
  when a run stops, what of a text can be shown, perplexity, and what the
  command line asks for.

The arithmetic on numbers is the caller's. The traits `Kernels`, `Scoring` and
`Drawing` list it and promise nothing of its results; a contract says which
numbers go into which operation, and where its result goes. Numbers in a file
are carried as bit patterns; `bits` knows their order. What the library takes
from the standard library and from `rand` without proof is stated at the few
items that are marked as such.

## What is not

`app` adds and multiplies, in single precision, with `rayon` over matrix rows,
and does input and output. `extras/kernels.metal` holds the GPU kernels for Apple
machines.
