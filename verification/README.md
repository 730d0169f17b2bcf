# mammut_fft_lib

Spectral audio processing with one FFT over the whole file: load a sound,
transform it once, change its spectrum, transform it back and save it.

## Layout

- `src/` — the library, verified with Verus. It holds the processor state
  (time samples and spectra per channel, generic over sample and bin type),
  the structural side of every operation (which bins are kept, zeroed,
  moved, swapped, split into parts or crossfaded), the splitting and
  crossfading of the spectrum into parts, the interleaving of channels and the
  shared writer used when saving. Contracts state each operation exactly over
  sequence views (the random swaps as the exchanges of random draws, each
  within the documented distance); the laws of the split (equal linear
  shares, DC in part 0, parts that partition the spectrum and add back up to
  it, crossfade weights that add up to one) are proof functions.
- `app/` — the command-line shell and the browser front end, and the numeric
  work on `f64` samples and `Complex64` bins: the transforms (realfft),
  amplitudes and phases, decoding (symphonia) and WAV writing (hound).
- `tests/` — tests of the library on `f64` / `Complex64` data.
