# porthole

A self-hosted TCP/UDP tunneling and relay service. The relay runs on a public host; the client runs
on a machine behind NAT, keeps a TLS control connection to the relay, and opens data connections on
demand. End users reach a service behind NAT through public ports of the relay.

The library in `src/` holds the decisions of both programs and the protocol between them, with
contracts that Verus proves. The program in `app/` runs the sockets, files and screens around it.

## Layout

- `protocol`, `udp`, `reassembly`: frames, authenticated UDP packets, fragments
- `server`, `server::routes`: which connections are let in, public ports, registrations, sessions
- `client`: commands, config write-back, control messages, status of the tunnels
- `udp_server`, `udp_client`, `source_pool`, `diagnostics`: the two ends of a UDP tunnel
- `tunnel`: what both ends of a UDP tunnel do to a datagram together
- `config`, `cli`, `web`, `service`, `setup`, `logging`: settings and requests
- `invite`, `tls`, `auth`, `proxy`, `backoff`: connection codes, pinned certificates, tokens,
  PROXY headers, reconnecting
- `tui`, `banner`, `names`: what is shown
- `single`: single-precision numbers in integers, which the colours of the banner are computed in
- `addr`, `text`, `buffer`, `crypto`, `maps`: addresses, texts, and the outside crates that the
  library calls

Statements about several functions are the public proof functions whose names begin with `law_`.
