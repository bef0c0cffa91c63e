# ks

A local secret manager on top of the [age](https://age-encryption.org/) encryption
format, with a store that git can synchronise. The library is verified with Verus.

- `src/` is the library: the store and its files in memory, envelopes and
  generations, moves and changes of recipients with their journals, one-time
  passwords, and what the commands decide. Its contracts say what each operation
  returns and which changes it makes; the modules `laws`, `move_laws`,
  `rotation_laws` and `store_laws` prove what holds across operations, also when they
  are interrupted.
- `tests/` runs the library with the real encryption.
- `app/` is the program around it: arguments, files, locks, `git`, the clipboard and
  the system calls that harden the process.

The library works on the files of the store directory in memory. Each operation
notes its changes in order, and the program makes them on disk while it holds the
store's lock; each change is taken to happen as a whole or not at all.
