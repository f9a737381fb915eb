# macswapi

A per-process memory and swap inspector for macOS. It lists, for each process, its compressed
memory, its physical footprint and an estimated share of the swap in use. It can also compare two
samples and show which processes have grown.

    macswapi [N] [-p|--parent] [-w|--watch|--delta [SECS]]

macOS accounts for swap by segment and never by process. The compressed memory and the footprint
are therefore exact, and the swap of a process is an estimate: the swap in use, split in proportion
to compressed memory.

## Layout

- `src/` is a library verified with Verus. It decodes what the kernel answers, reads the command
  line, orders and selects rows, splits the swap, compares samples, and writes every line of output.
- `app/` makes the system calls and prints.
- `tests/` runs the library, and compares its numbers with the floating-point unit.

## What is proved

- The estimates of all processes add up to the swap in use, but for a factor of at most
  `(1 + 2^-53)^(n + 5)` with `n` processes (`share::law_estimates_conserve_swap`).
- No estimate exceeds the swap in use, more compressed memory never gives a smaller one, and all of
  the compressed memory gets all of the swap (`share::law_shares_are_ordered`).
- Estimates, rates and amounts are the doubles that IEEE arithmetic gives, rounded to nearest with
  ties to even; amounts are written with correctly rounded decimals.
- Rows are put in the one order that is right, and nothing is lost on the way.
- A process number that was reused between two samples is never compared.
- A comparison takes two samples with one pause between them, of a second at least.
- Showing parents adds two cells to each line and changes nothing else.
- A task port that was granted is given back, whatever the kernel answers in between.
- The command line is read as the help text says: a line is accepted exactly if no argument has a
  fault, and the first fault is the one reported.

Strings from the kernel that are not valid UTF-8 go through `String::from_utf8_lossy`, whose
contract is taken on trust.
