# problems

A collection of small Rust exercises, written as a Verus library whose
behaviour is stated in `requires`/`ensures` contracts and proved.

## Layout

- `src/` — the verified library, one module per exercise:
  - `combinations` — all `k`-element combinations of a slice, in order.
  - `conway` — a row-major grid, the neighbours of a cell, and the game of life.
  - `min_queue` — a FIFO queue that also reports its least element.
  - `pstack` — a persistent stack whose versions share their common part.
  - `lru_cache` — a cache that evicts the least recently used entry.
  - `prefix` — the longest common prefix of a list of strings.
  - `comm` — the lines of one text that also occur in another.
  - `flatmap` — a map kept as a sorted vector of pairs.
  - `itertools` — iterator adaptors: a lazy cycle, extraction of one item, the
    shared state of a tee, and grouping by a key.
  - `mpsc` — the queue behind a single-threaded channel.
  - `trust` — a repeated prisoner's dilemma between agents.
  - `order` — how keys compare, shared by the ordered containers.
- `tests/` — tests of the library on concrete values.
- `app/` — the command-line tool (`comm`) and the parts that need what verified
  code cannot hold: `Rc<RefCell<..>>` handles for the channel and the tee,
  `dyn Any` for the context store, and `std::error::Error` for the channel errors.
