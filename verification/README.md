# track_mapper

A Telegram bot that turns a photographed trail map into a published map
page. A user sends `/add_map`, answers with the coordinates of the picture's
top-left and bottom-right corners, and attaches the picture; the bot traces
the orange trail drawn on it, places markers along it and publishes the page.
`/list` lists the published pages.

- `src/` is the verified library:
  - `command_handler`: a registry of named commands;
  - `bot`: the conversation as a state machine (`Bot`, `AddMapCommand`,
    `ListCommand`) and the listing of published pages;
  - `geo_coder`: coordinates text, and the trail tracer over a colour mask,
    with its step-by-step statement in `geo_coder/flood.rs`, what every
    flood keeps in `geo_coder/flood_laws.rs`, the rings and their marker
    pairs in `geo_coder/flood_rings.rs`, and when a trace succeeds and paints
    every trail pixel in `geo_coder/flood_complete.rs`;
  - `picture`: decoding the map picture with the `image` crate, reading
    pixels and painting the traced trail white;
  - `tracker`: closeness of marker points;
  - `text`: string helpers; `urls`: the calls into the `url` crate.
- `app/` is the program around it: Telegram, downloads, the colour test on
  the picture, coordinates in degrees, saving the painted picture and page
  rendering.
- `tests/` exercises the library.
