# spectrum_compare

A tool that loads two audio files, brings both to one sample rate, and shows their averaged
spectra (short-time Fourier transform, Hann window) in one plot, with the loudest peaks of each.

- `src/` is the library, verified with Verus: the state machine that turns decoded packets into
  a mono signal (`decoding`, with its laws over whole runs in `stream`
  and over whole streams in `outcome`), the mono mix (`mono`),
  the averaged spectrum (`spectrum`), local maxima and listed peaks (`ranking`, `peaks`), what an
  analysis holds (`analysis`, `measures`), the lines that describe it (`report`, `text`), fonts
  (`fonts`) and the state behind the window (`state`).
- `app/` is the program: the window, files, decoders, the resampler and the transform.
- `tests/` runs the library, with machine floats and `rustfft` behind it.

The library names no floating-point type. Values cross as bit patterns (`single`), which it
orders itself; each arithmetic operation is asked of a `FloatUnit` (`unit`), and contracts say
which questions lead to a result. `determinacy` shows that over a unit that answers each
question in one way, every result is fixed.
