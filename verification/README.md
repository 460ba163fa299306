# hussh

A minimal SSH server that only relays TCP connections ("direct-tcpip"),
authenticates by public key only, and can serve as a low-interaction honeypot
for password guessers.

- `src/` is the verified library (Verus):
  - `text.rs`: character-level helpers and the grammar primitives (digits,
    splitting) over `Seq<char>`;
  - `addr.rs`: IP and socket addresses as plain numbers, with their textual
    grammar, verified parsers, and texts that read back as the address;
  - `config.rs`: the configuration, and destinations: their grammar, parser,
    text, and what each permits;
  - `shared.rs`: rule matching (`may_auth`, `auth`), relay permission and
    the text a relay target is logged with;
  - `session.rs`: one client session's state and decisions;
  - `honeypot.rs`, `server.rs`: honeypot handling, report retries, the text
    a password attempt is logged with, and the settings the server starts
    with.
- `app/` is the daemon around it: command line, configuration file (TOML),
  the russh server and handlers, relaying, the honeypot reporter and signals.
- `tests/` exercises the library on concrete values.
