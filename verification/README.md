# quspec

quspec is a lightweight audio spectrogram viewer. This crate holds its
verified core (`src/`): every function there carries a contract that Verus
proves, save one trusted wrapper, `push_char` in `src/utils.rs`, whose
contract (std's `String::push` appends a character) Verus takes as given. `app/` is the program around it: the egui window, decoding with
symphonia, the FFT with rustfft, the clipboard, threads and file-system walks,
and the floating-point parts (palette, decibels, zoom and pan).

## Keybindings

- q: Quit the application
- s: Copy the full spectrogram graph screenshot to clipboard
- a: Load the previous audio file in the folder
- d: Load the next audio file in the folder
- h: Pan left / seek backward in time (when zoomed in)
- l: Pan right / seek forward in time (when zoomed in)
- j: Zoom out (double the viewed window duration)
- k: Zoom in (halve the viewed window duration)
- w: Cycle window size (double the FFT size; hold Shift to halve it)
- c: Switch between stereo channels
- f: Toggle fullscreen mode
