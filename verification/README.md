# speech2text

Transcribes long-form Mandarin Chinese speech with the SenseVoice ONNX model, from files on the
command line or live from a browser's microphone.

`src/` is a library verified with Verus. It holds the decisions of the pipeline and no floating
point: numbers are moved by generic code, ordered by their bit patterns, and computed by functions
that the caller hands in. Left to `app/` are the test whether a line was shown for long enough,
which compares floating-point times, and the choice between CUDA and the CPU.

| module | what it does |
|---|---|
| `order` | the order of single-precision numbers, read off their bits |
| `text` | trimming, splitting, reading and writing numbers |
| `audio` | silence-aware segments, filter descriptions, the steps of decoding a file |
| `features` | frames of the filter bank, low-frame-rate stacking, normalisation |
| `ctc` | greedy decoding of the model's output |
| `vocab` | the vocabulary file, and text from tokens |
| `meta` | the metadata that a model carries |
| `asr` | the recogniser: loading, one chunk, a recording |
| `server` | options and the voice-activity detection of one stream |
| `app`, `capture` | the state of the page, and what the user is told |

What is believed without proof: `String::push`, and four accessors of `ort` (`Session::inputs`,
`Session::outputs`, `Session::metadata`, `ModelMetadata::custom`), each stated beside its wrapper.

`app/` is the program around it: the command line, ffmpeg, the filter bank, the ONNX session, the
web server and the page. `tests/` runs the library.
