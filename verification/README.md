# ubuntu_drop

AirDrop-ish file transfer for your own network: a daemon that receives files
and snippets from phones and other machines behind a six-digit PIN, a
desktop indicator, and a CLI that pushes files to other devices found over
mDNS.

The decisions are a Verus-verified library (`src/`):

- `auth`: signed session tokens and the per-address exponential lockout.
- `offers`, `sessions`: the registries of transfer offers and connected
  browsers, with their expiry and sweeping rules.
- `server`: what the HTTP handlers decide (authorisation, upload routing,
  snippets, listings, downloads).
- `net`, `page`, `qr`, `tray`, `popover`, `tunnel`, `discovery`, `send`,
  `config`: file names, the page, the pairing QR, the indicator's menu, window
  placement, the tunnel URL, the peer list, the sender's side and the
  configuration.
- `text`, `table`, `crypto`: the string operations, the keyed table every
  registry is built on, and the HMAC, hex and RNG calls.

`app/` is the program around it: the command line, the axum server, the ksni
tray, mDNS, HTTP requests, files and processes.
