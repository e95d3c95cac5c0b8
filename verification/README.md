# carlinkit_otalib

Support library for Carlinkit adapters running CatPlay: OTA image packing and
extraction, checksums, U-Boot environment signing for i.MX devices, kernel module
dependency resolution, the device property store and its small web interface, flash
layout planning, boot parameters and configuration file formatting.

Layout:

- `src/` — the library, written in Verus. Every function carries a contract that
  Verus proves; the laws of the library (reading back a packed OTA image, re-reading
  a written property file, load orders being acyclic, signing being stable, …) are
  public proof functions next to the code they speak about. Calls into `crc32fast`,
  `md5hash`, `miniz_oxide`, `aes`/`cbc` go through small trusted wrappers whose
  contracts are documented where they are declared.
- `app/` — ordinary Rust around the library: files, devices, sockets, processes and
  the loops that drive them. It takes every decision from the library.
- `tests/` — tests of the library on concrete values.
