# hlsearch

Searches for sequences of prime shifts that leave as many columns as possible uncovered, and proves
with Verus that it finds all of them.

The row of a prime `p`, moved right by `k < p`, covers every `p`-th column from column `k` on. A shift
sequence picks one shift for each of the first `depth` primes; it counts the columns that none of its
rows covers. The search goes through the tree of all sequences depth first, each prime's shifts in
descending order. It leaves out nodes that already count to less than the best sequence so far, and
records every sequence with the highest count. With a target, it also records every sequence that
counts to exactly the target, and leaves out only nodes below both.

## Layout

- `src/` is the verified library.
  - `bits`, `bitmask`: rows of bits in 64-bit words, their conjunction and popcount.
  - `primes`: the sieve of Eratosthenes.
  - `shift_table`, `setup`: the masks of all shifted rows, and what a node of the tree counts.
  - `tree`: the tree as mathematics: its leaves, the search with pruning, what it finds.
  - `walk`: positions in the tree and the steps of the depth-first search.
  - `search`: the sequential search, which can be paused and resumed at checkpoints.
  - `split`, `progress`, `gather`, `parallel`, `plan`, `resume`: the parallel search. The threads share
    a lock whose invariant says that no leaf is lost and nothing false is recorded.
  - `checkpoint`, `accept`: checkpoints, the reasons to refuse one, and tests of their consistency.
  - `config`, `output`, `text`: settings, file names, messages.
- `tests/` runs the library.
- `app/` is the program: arguments, files and logging.

## What is proved

- The sieve returns exactly the primes up to its limit.
- The sequential search ends with the highest count of any sequence, all sequences that have it, and
  all that hit the target, each once, in search order. Pruning loses nothing.
- A search resumed from any of its checkpoints ends as the uninterrupted search does.
- The parallel search finds the same sequences as the sequential one, whatever the threads do, and so
  does a parallel search that is resumed from any checkpoint.

What is taken on trust: the contracts of `rayon::current_num_threads`, of rayon's parallel `map` and
`collect`, and of `u64::count_ones`; of chrono's local time only the form of its text; and
`std::path::PathBuf`, which is only carried along.
