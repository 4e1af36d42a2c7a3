# zero2prod

A small web service, with its logic verified by Verus.

- `src/` is the verified library:
  - `address`: IPv4 addresses and IPv4 socket addresses, their dotted-decimal
    text, and parsers that accept exactly those texts, with round-trip laws.
  - `app::application`: the service's settings (name, version, description,
    listening address and port), their defaults and builders.
  - `server`, `webapp`: the route tables of the service and the replies of
    its handlers.
- `app/` is the program around it: command-line arguments, OpenTelemetry and
  logging setup, and the axum server that listens on the library's address and
  answers with the library's routes and replies.
- `tests/` exercise the library on concrete values.
