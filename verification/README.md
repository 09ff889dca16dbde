# emu_core

The core of an emulator, written in Verus: guest memory behind an MMU, and the
compilation of guest code from an SSA intermediate representation.

* `src/` is the library. Every function states what it returns and changes, and
  Verus proves it. The properties that span several functions are public proof
  functions whose names begin with `law_`.
  * Guest memory: `memory`, `page_store`, `page_table`, `io_mmu`, `access`,
    `scalar`, `memops`, `lock_plan`, `dirty`, `lookup_cache`, `fault`, `laws`,
    `isolation_laws`.
  * The machine around it: `cpu_fabric`, `exclusive_monitor`, `object_manager`,
    `worker_laws`, `memory_object`, `transfer_laws`, `icache`, `exec_context`,
    `ffi_support`.
  * The intermediate representation: `ir` with its builder, the compile order,
    the halt-check pass, the meaning of the code, and what the emitters promise.
  * Code generation: `lowering`, `function_lowering`, `compiler`, and that
    lowered code does what the code of the IR does: `lowering_laws`, `block_laws`,
    `lowered_layout`, `function_laws`.
* `tests/` runs the library.
* `app/` is ordinary Rust around it: shared machines with a worker thread, files
  as memory objects, and Cranelift as the code generator.

Outside crates are trusted where `src/` calls them: `smallvec` and `arrayvec`
for short lists, `getrandom` for random pages, `anyhow` for the errors of
memory objects. Each such item says what it relies on.
