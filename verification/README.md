# p99-logger-client

A session engine for Project 1999 and Project Quarm, verified with Verus. It logs
in, enters an existing character, keeps it where it was saved, and turns the
communications it receives into records.

The library in `src/` never touches a socket, a clock or a file. The host hands
it datagrams, packets and moments in time; it answers with datagrams, actions
and events. Everything it decides is stated in contracts and proved.

| Module | What it holds |
| --- | --- |
| `transport` | the reliable UDP session of the Titanium client: negotiation, framing, compression, acknowledgment, fragments |
| `old_transport` | the legacy UDP stream of the EQMac client |
| `p99` | the V62 application codec and the session permutation |
| `assets` | checksum inventories, file manifests, and what an installation scan has to measure |
| `chat` | channel messages, channel names and captured packets |
| `client` | configuration, events, runs and retries |
| `client::settings` | settings with defaults for what they leave out |
| `client::session` | login, world and zone of the Titanium/P99-V62 protocol |
| `client::quarm` | login, world and zone of the TAKP/EQMac protocol |
| `client::laws`, `transport::laws`, `old_transport::laws` | what holds of each of these as a whole |
| `outside` | the functions of other crates and of std that the proofs rely on, with what is trusted of them |
| `bytes`, `text` | fields, integers and text |

Public proof functions whose names begin with `law_` state what callers may rely
on beyond single calls: that frames are delivered once and in order, that a
damaged datagram changes nothing, that a rejected login never retries, that the
character is never moved.

`app/` is the command line client around the library: settings in JSON, records
as JSON lines, sockets, signals and health files. The login cipher and the
server-list format come from the `eq_login_protocol` crate, which `app/` calls.
`tests/` runs the library with the server's part played in memory.
