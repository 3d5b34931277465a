# ntrancerator

The verified core of N-Trancerator, a DJ visualization tool: a real-time GPU audio
spectrogram visualizer, and a latent-space explorer for an image generator.

The library is written in Verus. Every function carries a contract that states what it
returns or changes, and Verus proves it, together with the absence of panics and
overflow. Properties that hold across functions are public proof functions.

| Module | What it holds |
|---|---|
| `single`, `rounding`, `order` | binary32 arithmetic on bit patterns, correctly rounded, and how it respects the order of numbers |
| `config` | configuration, defaults, validation |
| `dsp`, `dsp::window` | sliding analysis frames, dB columns, window functions |
| `audio` | sources, mono downmix, ring sizing |
| `audio::ring` | the lock-free analysis ring (`rtrb`) |
| `audio::decode`, `audio::live`, `audio::playback` | what decoding, capture and playback decide and gather |
| `render::{colormap,mapping,history,image,monitor,visualizer}` | colormap tables, axes, the history cursor, pixel formats, monitor choice, the display's events |
| `midi`, `gan`, `explorer` | MIDI messages, the generator's wire format, the slider projection, what each redraw does |
| `text`, `greeting` | matching of names and numbers, the greeting |

Cosines, logarithms, powers and the Fourier transform are floating-point functions which
the caller passes in; contracts speak of the values that they give.

`app/` holds the programs around the library: the command line, `cpal` and `midir`
devices, `symphonia` decoding, the `wgpu`/`winit` drivers, and the generator's process.
