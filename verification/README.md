# videothumb

The decision logic of a Total Commander lister plugin that draws video
thumbnails, written in Verus and proved against its contracts.

## Layout

- `src/` — the verified library:
  - `settings.rs`: the settings of `VideoThumb.ini`, their defaults, the
    clamping of every value and the parsing of `FallbackSeekMs`;
  - `cache.rs`: the thumbnail cache (least recently used items leave first,
    bounded by a number of items and by bytes), with its laws;
  - `natural.rs`, `natural_order.rs`: the natural order of file names, proved
    to be a total preorder;
  - `entry_name.rs`, `zip_sequence.rs`: which entries of a ZIP image sequence
    are images, which of them are tried and in what order, chosen in one pass
    over the archive while holding at most `MaxCandidates` of them;
  - `image_decode.rs`: decoding an image entry with the `image` crate, behind
    three trusted wrappers whose results are named, not described;
  - `frame.rs`: the integer statistics of a sampled frame;
  - `packets.rs`: the packet loop that gets a frame out of a video decoder,
    as a step function from what came of an action to the next action;
  - `plan.rs`: the seek positions of a video, the order of decode attempts, the
    in-memory read/seek cursor handed to FFmpeg, the detection string;
  - `thumb.rs`, `text.rs`: thumbnail pixel rows for a DIB section, UTF-16
    strings and paths.
- `app/` — the plugin itself: the exported WLX functions, Win32 and FFmpeg
  calls, file and archive access, process-wide state and the floating-point
  judgement of frames.  It is ordinary Rust and calls the library.
- `tests/` — tests of the library on concrete values.

The tests run with the real `image` and `zip` crates linked, so they also
exercise the trusted wrappers.
