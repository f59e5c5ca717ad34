# bulk_ingest

A verified library for the bulk ingestion of logs, written in Verus, with the service around it in
plain Rust.

A bulk request is a body of lines. A metadata line names an action, a stream and perhaps a document
id; the line behind it is a record of that stream. The library reads such a body, judges each
record by its timestamp, gathers the records of each stream, casts them to the stream's schema,
sorts them into the buffers that are written, and answers each record.

## The library, `src/`

- `text`, `dict`, `json`: text, maps from text to values, and JSON values.
- `plain`: objects written plainly, which are read without a JSON parser.
- `metadata`: metadata lines, read at sight where they are plain, else as JSON.
- `scan`: the lines of a body, and the stream of each record.
- `records`: records read from their lines, judged, and gathered by stream.
- `ingest`: a whole request, and what becomes of its streams.
- `schema`: fields and the casting of records to their types.
- `write`: which records fit, how their outcomes are noted, and the buffers they go to.
- `batch`: the records of a stream, each refused and answered or put into its buffer.
- `streams`: a call that writes several streams, one after the other.
- `response`: the answer to a request.
- `alerts`, `usage`, `triggers`: the alerts that are still evaluated, what is reported of the use of
  a stream, and the answers on triggers.

Every function states in its contract what it returns or changes. What holds of several functions
together stands in public proof functions whose names begin with `law_`.

The library calls `memchr`, `rayon`, `serde_json` and `simd_json` through small functions whose
contracts are believed. Their doc comments say what is believed of the outside function. What comes
from the platform (the clock, the form of stream names, the reading of timestamps, the keys of
buffers) is passed in as functions, and contracts hold for whatever those functions return.

## The service, `app/`

The endpoints, storage, metrics and logs. `app/platform.rs` lists what the service asks of the
platform it runs on.
