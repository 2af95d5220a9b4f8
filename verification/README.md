# LazyChess

Chess rules, notation and game bookkeeping, with machine-checked contracts.

`src/` is the library, verified with Verus: boards as bitboards, move
generation, FEN and PGN reading and writing, SAN, the game with its history,
draw rules and undo, the opening book, the reading of UCI engine output and
the commands sent to an engine, and the board tactics and mate-score rules of
move classification. Each public function states what it returns over a
mathematical model; laws that relate several functions (undo restores the
game, FEN reads back what it writes, legal moves never leave the king in
check, ...) are proof functions.

`app/` is ordinary Rust around the library: the engine process driver, the
expected-points and accuracy arithmetic on floating point numbers, and the
game reports (JSON through serde, tables through cli-table).

`tests/` run the library on concrete positions.
