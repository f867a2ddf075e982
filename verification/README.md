# atomic_solver

A DF-PN+ solver for atomic chess whose core is verified with Verus. Given a
position, it decides whether the side to move can force a win, a loss or a
draw, and gives a principal variation for a decisive result.

Board mechanics come from the `atomic-movegen` crate, called from
`src/movegen.rs`. A board's contents (pieces, side to move, castling rights,
en-passant square, clocks and its key) are a sequence of plain values, and
each wrapper states its result over them; what the crate computes at length
(FEN parsing, the legal moves, the effect of a move, attack sets, check) is
named over the contents and not spelled out, so properties that depend on
the rules of the game hold relative to those names.

Three limits of the crate are kept out of reach rather than left to its
debug assertions. A FEN whose fullmove number (its last digit run) is 32768
or more is refused, since the crate's 16-bit game ply would overflow. The
crate collects pseudo-legal moves into a list of 256, so moves are generated
only where a per-piece bound on that stream (12 per pawn, 8 per knight, 13
per bishop, 14 per rook, 27 per queen, 8 per commoner, 2 castlings) stays
within 256; and a move adds one to the 16-bit halfmove clock and game ply,
so none is played where either is at 65535. A position outside these limits
offers no moves here, and is classified as a position without moves
(checkmate or stalemate). Moves are played only when they are among those moves.

## Layout

- `src/moves.rs`, `src/notation.rs`: the 16-bit move code, UCI text.
- `src/position.rs`, `src/zobrist.rs`: positions, terminal outcomes, keys.
- `src/search/`: the transposition table, move ordering, child selection,
  the DF-PN+ search with shortest-line refinement, and the small-region
  pre-phase with its certificate checker.
- `src/proof_event.rs`, `src/proof_tree/`: proof trees, their builder, the
  replay validator and the binary dump.
- `src/tt_snapshot.rs`, `src/reconstruct/`: the table snapshot and the
  offline rebuild of a proof tree from it.
- `src/nn/`: feature and policy indices of the move-ordering network and the
  weight-file header checks.
- `app/`: the command-line program, config loading, the worker thread and
  the floating-point network inference.
- `tests/`: tests of the library.

Laws proved about the library include: a snapshot and a proof-tree dump read
back what was written, and a cut, extended or re-headed snapshot is refused;
a snapshot whose record count is raised is refused; a new or cleared table
finds nothing; a packed region key decodes to its placement; values of a
closed region satisfy the AND/OR equations with exact distances; the
certificate checker accepts exactly the strategies that win every line from
the root, unless the stop flag or the evaluation budget ends it; a proof
tree that the validator accepts passes every rule at every replayed node;
the 101 halfmove-clock keys are pairwise distinct; and a table store is seen
by the next probe.

Not stated: that a decisive result of the search itself is the game value.
The search stores and reads results under 64-bit position keys, where two
positions may share a key, and it stops on a clock or a flag set by another
thread; its contracts say what the table recorded, that a principal variation it
returns is a line of legal moves, that a terminal root is answered with its
own outcome when nothing but the budget limits the run, and that a spent
budget leaves the table as it was. The replay validator and the
certificate checker are the parts that establish a forced result.
