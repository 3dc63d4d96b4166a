# encapfn_mpk

The core of a runtime that runs foreign (C) libraries in a protection domain
of their own, using Intel memory protection keys (MPK): the foreign libraries
are loaded into a separate link namespace, all of their memory is assigned a
protection key, and the PKRU register withholds access to Rust memory while
foreign code runs.

`src/` is the verified library (Verus):

- `pkru`: the PKRU value loaded while foreign code runs, with the access
  rights it grants to each protection key.
- `text`, `maps`: a parser for `/proc/self/maps`, specified character by
  character (whitespace trimming, splitting, line splitting, integer
  parsing), and the `mprotect` bits of a mapping.
- `sort`, `linkmap`: stable sorting by address, the grouping of memory
  mappings by the loaded library they belong to, and the split of link-map
  entries into those exclusive to one namespace and those shared.
- `plan`: which mappings a new runtime instance assigns to which key.
- `tracker`, `runtime`: the foreign stack, stacked allocations and the
  tracking of referenceable foreign memory, and symbol resolution.
- `invoke`: the recorded result of a call into foreign code and the bytes of
  a value returned in registers.

`app/` holds what the library cannot: the system calls (`pkey_alloc`,
`pkey_mprotect`, `mmap`), the dynamic linker (`dlmopen`, `dlinfo`, `dlsym`),
the files that hold the runtime and loader objects (`memfd`, `tempfile`,
`patchelf`), and the protection-domain switch written in assembly.
