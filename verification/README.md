# uliab

A build tool core, verified with [Verus](https://github.com/verus-lang/verus).

- `src/` is the library. Every function in it carries a contract that Verus
  proves: the task graph and its waves, fingerprints and the incremental
  engine, the Maven resolver, the plugin registry client, the build driver,
  project scaffolding and the command line.
- `tests/` exercises the library from outside.
- `app/` is the program around it: files, the network, processes, threads, and
  the calls into the `.ulb` evaluator and the plugin host.

The library does no input or output. Where it needs something from outside it
says so: `Resolver::resolve`, `Registry::resolve`, `build_project` and
`Executor::execute` each tell what is needed next and are called again with
what came back; `Transfer` and `Extraction` do the same for a file on its way
into the cache.

What is taken on trust stands in four places: the SHA-256 state of `sha2` in
`src/digest.rs`, the XML reader of `quick-xml` in `src/maven/pom.rs`, the string
literals of `serde_json` in `src/json.rs`, and `String::push` in `src/text.rs`.

Paths are texts with the parts separated by `/`, and one that starts with `/` is
absolute: the contracts on paths are those of a Unix system.
