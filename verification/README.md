# capnp

A verified core for working with Cap'n Proto schemas in Rust.

- `schema`: struct, enum and interface schemas, their fields, enumerants and
  annotations; and `DynamicSchema`, which builds type information at run time
  from a code generator request. `schema::laws` states what holds of every
  schema that is built.
- `schema_capnp`, `struct_list`, `text`, `introspect`, `dynamic_value`: the plain
  values that schemas are read from and give back.
- `registry`: the tokens that name run-time schemas as long as they live.
- `byte_channel`: an in-memory byte stream.
- `import`: the decisions of the macro that compiles schema files.
- `glob`: which glob expressions are taken.
- `capstone`: which compiler to use, and the code that unpacks it.
- `capnproto_rpc`: the attribute that turns an impl block into one of a server.
- `reconnect`: servers against which reconnecting clients are tried.

`src/` holds the library, which Verus verifies. `tests/` runs it. `app/` is what
surrounds it: asynchronous I/O, the file system, macros on tokens, and the
registry that a process shares.
