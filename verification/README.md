# ustripe

Tools for LED stripes and the LED ball, as a verified library (`src/`)
and the programs around it (`app/`).

`src/` holds the logic, each function with its contract:

- `udp_proto`: pixel frames (Open Pixel Control, channel as priority) and
  the receiver's priority and timeout rules; `ustripe` builds such frames.
- `ws2812_spi`: WS2812/SK6812 pulse encoding into SPI samples.
- `output`: LED models, RGB to RGBW conversion, the bytes sent per model.
- `mac_gen`: a private unicast MAC address derived from a device id.
- `rstripee`: the controller firmware's start-up patterns and clock.
- `ledball`, `ledball_globe`, `ledball_impacts`, `batman`,
  `ustripe_sha`, `ustripe_twinkling`: the pixel logic of the animations.

`app/` holds sockets, audio, images, random numbers, hardware access and
the floating point drawing.
