# face_auth_core

IR-camera face authentication for Linux (a PAM helper, an enrolment
command and a GTK settings panel), split into a verified core and the code
around it.

- `src/` is the library, written in Verus. Every function has a contract
  and is proved against it:
  - `text` — Unicode trimming, decimal parsing, line and field splitting,
    and the fact that writing lines out and reading them back gives them
    back.
  - `user` — username validation (names are single plain path components)
    and interpretation of `getent passwd` output.
  - `capture` — IR device names, the format and geometry a V4L2 driver
    reports, turning a mapped buffer into a frame, device paths, and the
    stable numeric ranking of IR camera candidates.
  - `storage` — the `embeddings.bin` format, with the round-trip law, and
    the per-user template directory (exactly one level below the store).
  - `config` — settings other than the thresholds, and the narrowing overlay
    of a user's own file over the system's.
  - `preprocess` — frame geometry and the integer half of CLAHE: tiles,
    per-tile histograms, clipping with redistribution (mass is conserved)
    and cumulative counts.
  - `session` — the authentication scan and enrolment state machines.
  - `gui`, `pam`, `preview` — what the settings panel, the PAM helper and
    the live preview decide.
- `tests/` runs the library on concrete inputs.
- `app/` is ordinary Rust: V4L2 ioctls and `mmap`, files and permissions,
  `getent`, configuration parsing, the ONNX models and every
  floating-point computation (frame-quality gate, CLAHE level mapping and
  blend, resizing, cosine similarity, the thresholds), the entry points of
  `face-auth` and `face-enroll`, and the GTK panel.

Outside crates called from the library go through a few trusted items,
each with a doc comment saying what is assumed of it: `str::to_lowercase`,
`String::push`, and `byteorder`'s little-endian `read_u32` / `write_u32`.
