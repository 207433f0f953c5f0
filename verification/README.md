# yarn-berry-fetcher

Fetches the dependencies of a Yarn Berry lockfile into a cache of zip files, and calculates the
checksums that a lockfile lacks.

- `src/` is the library. It holds the decisions: how a lockfile and its entries are read, where each
  entry is fetched from and with which checksum and token, when a request is repeated, what the files
  of the cache are called, and what is written to a zip file. Every function is verified with Verus
  against its contract; the public proof functions named `law_*` state what holds of several of them
  together.
- `tests/` runs the library on concrete values.
- `app/` is the program around it: arguments, files, the network, `tar` and `libzip`.

What is taken from other crates without proof is marked `#[verifier::external_body]` in `src/`: the
parser for lockfiles, SHA-512 and hexadecimal, query strings, versions, the expansion of
environment variables, and the calendar. Each of these items says what is believed of it.
