# audio_control

The verified decisions behind a small Wayland audio popup for waybar: per
application volume sliders, playback and input device lists, and a "Now
Playing" section for media players.

`src/` is a Verus library. Every function in it is proved against its
contract except two trusted wrappers of std, whose contracts are taken as
given: `icons::to_lowercase` (calls `str::to_lowercase`, whose result is
named `lowercase`) and `audio::str_from_utf8` (calls `std::str::from_utf8`).

- `mixer` groups the sound server's playback streams by application (one
  slider per application, holding all its stream indices and their average
  volume) and plans the updates of the application list.
- `devices` and `widgets` plan the updates of the device lists.
- `media` decides which players are shown, which one is selected, what a
  player's card shows and which commands its buttons send.
- `theme` reads theme colours out of theme files and builds the stylesheet.
- `icons`, `audio`, `decimal` and `text` hold the smaller pieces.

`app/` is the GTK4 program around it: the PulseAudio connection, the MPRIS
calls, file and environment access, and the widgets themselves.
