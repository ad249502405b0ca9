# rustasr

Speech recognition with Whisper, GigaAM, Parakeet and Qwen3-ASR: the logic around the models, with
contracts that Verus proves.

- `src/` is the verified library. The contract of a public function says what it returns, or which
  operations of the tensor library led to its result and which of them was refused. Properties of
  several functions together stand in proof functions whose names begin with `law_`.
- `app/` reads files, opens devices and computes what needs fractional numbers: spectrograms,
  resampling, tables of positions.
- `tests/` runs the library with the crates it calls.

What the library calls of other crates (candle, tokenizers, safetensors, serde_json, rand, webrtc-vad)
stands behind small functions marked `external_body`, each with a comment on what is believed of the
call. Results that a machine rounds are described by relations between operands and results: a contract
says which operation was applied to what, and what the extents and element types are, not which bits
came out. Where only elements are moved or compared, contracts are exact.
