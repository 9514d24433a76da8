# timelock

Chained-hash time-lock puzzles. Work is a list of SHA-256 chains (seed,
iteration count, result); a puzzle masks each chain's seed with the result of
the chain before it, so the chains can only be recovered one after the other.
An archive is a tar file that holds an RSA key pair, the RSA private key
encrypted under a puzzle's solution, the puzzle itself, and files encrypted
under per-file AES keys.

Layout:

- `src/` is the verified library: hashing (`hash`), puzzles (`puzzle`), the
  text formats of puzzle and work files (`formats`), time strings (`time`),
  splitting work (`select`, `formats::workfile::split`), the decisions of the
  work generator (`work`), and the tar headers, listing and stored puzzle of
  the archive format (`archive`): the entries a new archive starts with and
  those that store a file (`archive::layout`), and the byte image of an
  archive with the laws of listing and reading it (`archive::image`). The RSA
  steps (the key pair a solution unlocks, the archive's key pair, encrypting
  and decrypting file keys) are in `keys`. Hex, number and UTF-8 helpers are in `utils`.
- `tests/` runs the library.
- `app/` is the command-line program: argument parsing, files, threads,
  timing, and the AES steps of the archive commands.
