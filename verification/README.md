# casparcg-timecode

Triggers [CasparCG Server](https://casparcg.com/) media playback from an incoming LTC audio
signal. Decodes LTC from an audio input, maps timecodes to configured media cues, and issues AMCP
commands to start, seek, pause, and resume playback on the server.

The logic is a library of verified Rust: every function under `src/` carries a contract that
[Verus](https://github.com/verus-lang/verus) proves. The program under `app/` is ordinary Rust
around it: the command line, the configuration file, the audio device, the TCP connection and the
terminal.

## Layout

- `timecode_parser`: audio samples in, timecode events out.
- `config`, `cue`, `media_loader`: the configuration and the media files that it names.
- `media_item`, `schedule`: when a media item plays, and what holds of that.
- `media_controller`, `layer`: what the layers of the server should do at an event.
- `amcp`: commands, responses, and the course of an exchange with the server.
- `audio`: choosing a device and reading one of its channels.
- `tui`: what the terminal shows.
- `float`, `rounding`, `float_text`, `natural`, `decimal`, `text`: numbers and text.

Laws that relate several functions are public proof functions named `law_...`.

What is taken on trust: the LTC decoder of the `timecode-coder` crate (`ltc`), and two functions
of the standard library, `str::to_uppercase` (`amcp`) and `String::push` (`text`).

## Usage

```sh
casparcg-timecode                        # run with default config.yaml
casparcg-timecode --config show.yaml     # custom config
casparcg-timecode --list-devices         # list audio inputs
```

A track maps a start timecode (`tc_start`) to a set of media items. Each item targets a CasparCG
layer on the configured channel. Overlapping layer assignments at the same timecode position are
rejected at startup.

```yaml
caspar_host: localhost
caspar_port: 5250
caspar_channel: 1
pause_detection_threshold_ms: 500
tracks:
  - name: "Background"
    tc_start: "01:00:00:00"
    media:
      - layer: 10
        file: "BG_LOOP"
  - name: "Feature"
    tc_start: "01:05:00:00"
    media:
      - layer: 20
        file: "MAIN_FILM"
      - layer: 30
        file: "LOWER_THIRD"
```
