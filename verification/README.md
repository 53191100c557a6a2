# facecam

An audio-reactive face camera: a spectrum of captured sound as bars, and a heart
that beats with the bass.

`src/` is a Verus library with everything that is decided rather than drawn:

- `text`: search, order and case of texts
- `audio`, `listing`: capture devices, their list, and the walk along them
- `queue`: the bounded queue between capture and picture
- `fft`, `keys`: the window of samples, the bins of the bars, and their peaks
- `heartbeat`: beats, resting beats and the rings they send out
- `app`: settings, keys, modes, and what a frame shows
- `nowplaying`, `screenshot`, `color`, `mesh`, `fonts`, `random`: the parts around

Samples travel as the bit patterns of their numbers; the arithmetic on them, the
drawing, and the access to devices and windows are in `app/`.

Environment: `FACECAM_DEVICE`, `FACECAM_MODE`, `FACECAM_DEMO`,
`FACECAM_SCREENSHOT`, `FACECAM_PHASE_OFFSET`.
