# pt-fuser

Traces of programs, put together from processor trace data.

A trace is a tree of frames. Every frame is a stretch between two readings of the
counters (time, cycles, instructions), cut up into chunks that fill it without
holes: calls, straightline code, and pauses in which nothing was traced. Events
are recorded beside the frames.

- `src/trace`: readings, frames, events, and the builder that puts a trace
  together from calls, returns, pauses and resumptions.
- `src/analysis`: finding frames by the name of their symbol, counting events in
  them, filtering traces, and gathering the figures of a histogram.
- `src/perfetto`: the packets of a Perfetto timeline.
- `src/text.rs`: reading settings out of text.
- `app`: the histogram program, and the encoding of timelines.
- `tests`: examples that run.

The library is verified with Verus. Its contracts are stated over mathematical
values (`FrameView`, `TraceView`, `BuilderView`, `PacketView` and so on), and what
holds of several functions together is stated in the proof functions whose names
begin with `law_`. What is taken on trust is `str::trim`, `str::parse` for `u32`
and `u64`, the words of their error, and from the `regex` crate `Regex::new`,
`Regex::is_match` and the words of its error.
