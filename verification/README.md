# nmap_regex_matcher

A verified library that reads nmap's `nmap-service-probes` file, compiles the
service match rules it declares, and counts how many of them match a corpus of
HTTP requests. The program in `app/` reads the files, runs the matching on a
thread pool and prints the results.

Layout of `src/`:

- `text.rs`: white space, trimming, searching and decimal parsing over characters;
- `escape.rs`: nmap escape sequences and the `q|...|` payload field;
- `fields.rs`: port lists, probe headers, first tokens and the `m|...|` field;
- `probes.rs`: the probe file grammar, its probes and match rules, and the laws
  that every parsed file satisfies;
- `patterns.rs`: rules compiled for matching and the count of matches;
- `request.rs`: corpus requests and their byte form;
- `trusted.rs`: the contracts assumed of `regex`, `regex-automata` and `std`.
