# microkitchen

microkitchen launches microsandbox VMs described by a `mise.toml`: Docker
inside, `mise bootstrap` for machine setup, and interactive control over
outbound network traffic.

- `src/` is the library: the configuration, the rules, the egress broker's
  decisions and protocols, and what each command decides and prints. It is
  written in Verus: contracts say what its functions return and change, and the
  `law_…` proof functions state what holds of several of them together.
- `app/` is the program around it: processes, sockets, files, the terminal and
  the microsandbox SDK.
- `tests/` runs the library, with the outside crates it calls.

What the library has from outside crates stands behind small functions marked
`external_body`, each with a doc comment that says what is believed of the
crate.
