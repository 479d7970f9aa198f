# GridPulse

GridPulse decodes low-bandwidth smart-grid mesh telemetry: meter
last-gasp outage reports, feeder route advertisements, template-based
interval readings and compact crew-dispatch scripts. Every stage of the
decoder is written in Verus and proved against a specification over the
bytes it reads.

## Layout

- `src/cursor.rs`: a bounds-checked byte cursor; each read is specified by
  a function on the data and the position.
- `src/crc.rs`: the frame CRC-16 and the folded checksum of replay input.
- `src/frame.rs`: frame synchronisation, header and CRC checks, and the
  seed-frame encoder with its round-trip law.
- `src/fragment.rs`: reassembly of fragmented messages, with laws for
  reassembly in any order and for the size limits.
- `src/tlv.rs`, `src/template.rs`: TLV records, template parsing and the
  template dictionary (install, compact, delete, lookup, cache).
- `src/measurements.rs`: template-driven decoding of readings.
- `src/route.rs`: the feeder route table and compressed paths.
- `src/scripts.rs`: the nested crew-script language and instruction weights.
- `src/session.rs`: the decoder state machine that ties the stages together.
- `src/replay.rs`: segment-by-segment replay of recorded traffic.
- `src/analytics.rs`: batch scoring.
- `src/error.rs`: the error type and the verified text of its messages.
- `app/`: `Display` for the errors and the three fuzzing entry points.
- `tests/`: scenarios over the public API.
