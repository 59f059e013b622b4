# m32_stream

A server that captures the 32 USB channels of a Midas M32 console, maps them to what a listener
is to hear, and sends them to clients as RTP packets; and a client that receives them and
measures latency, jitter and loss.

`src/` is the library, verified with Verus:

- `text`, `wire`: numbers as text and as bytes
- `config`, `mdns`: settings, and the record by which the server is found
- `audio`: the choice of the device, and frames of samples
- `rows`, `tables`, `database`, `sync`: the stored settings
- `rtp`, `stream`: packets, and the stream of packets to one client
- `session`, `api`: the clients that the server knows, and what it answers and announces
- `client`: thresholds, clock and measurements of the client
- `clock`: the time of day
- `database_laws`, `rtp_laws`, `client_laws`: what follows for the whole; laws on one module alone
  stand in that module

`app/` is the program around it: sockets, SQLite, ALSA, JSON and the command line. Started
without arguments it is the server on port 8000, with the argument `client` it is the client.

The client reads `UDP_PORT` (5004), `FORCE_DELAY_MS` (0), `JITTER_INTERPOLATE_MS` and
`JITTER_DROP_MS` from the environment; the server reads `AUDIO_MOCK_MODE`, with which every
sample is the number of its channel.
