# csilctl

A command-line client for CSIL services: it lists what a `.csil` file
defines, and sends a message to a CSIL-RPC server with a request built from
JSON (asking on the terminal for the fields the JSON lacks), showing the
response as JSON.

The logic is a Verus library (`src/`), proved against its contracts:

- `csil` — the parsed form of a `.csil` file and the lookups made in it;
- `list` — the listing: services, operations and the resolved shape of
  every type (`run_list`), and how references are resolved (`resolve`);
- `color` — ANSI styling and the rule that decides whether it is on;
- `value`, `jsontext` — JSON and CBOR values, and JSON text (compact and
  pretty) as serde_json writes it;
- `cbor` — canonical map order (entries sorted by the encodings of their
  keys);
- `payload` — JSON to CBOR against a type, with every control operator
  checked (`json_to_cbor`), and a decoded response back to JSON
  (`cbor_to_json`);
- `steps` — encoding with no bound on its steps (`encodes`), and the law
  that constraints only accept or reject;
- `objects` — the key order of a JSON object's members;
- `roundtrip` — JSON encoded with the `any` builtin and decoded again comes
  back as it was;
- `float` — doubles compared on their bit patterns, and the double an
  integer converts to;
- `prompt` — which fields to ask for, how an answer is read, and how the
  answers make the request;
- `send` — where a request comes from and what is shown of a response;
- `text` — decimal and hexadecimal notation, trimming, integer parsing.

`app/` holds the program around it: argument handling, reading and parsing
the `.csil` file, the terminal prompts, the network exchange, and the
conversions between the library's values and those of serde_json, ciborium
and the `.csil` parser. `app/extension.rs` is the root of the browser
extension's WebAssembly library, built on its own.
