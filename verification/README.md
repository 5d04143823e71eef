# capnp_json

A Cap'n Proto JSON codec whose logic is verified with Verus.

- `src/` is the verified library. `json`, `grammar`, `parser` and `writer`
  model JSON values and text; `roundtrip` proves that the parser reads back
  what the writer writes, and `parsed` what every value the parser returns
  satisfies. `data` holds Base64 and hex, `number` the
  reading of JSON numbers into integer fields (through the double each
  denotes where one is supplied), `options` the rules that turn
  annotations into encoding options, `encode` the encoder, `decode` the
  decoder (JSON text to the writes that fill a struct builder), `validate`
  the check that a schema's flattening terminates, and `message` the law
  that decoding what the encoder wrote sets the same fields again, for
  structs without `$Json.flatten` members or unnamed discriminators (those
  are outside the law), and `unknown` the law that a member under a key
  the decoder never looks up, inserted anywhere in an object, changes
  nothing.
- `app/` is the glue to the `capnp` crate: dynamic readers and builders,
  custom field codecs, floats (including the double that each JSON number
  denotes, through which the decoder reads integer fields), and the public
  `Codec` API.
- `tests/` runs the library on concrete values.
