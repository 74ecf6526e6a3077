# compacts

Compact data structures and small text formats, with their behaviour
stated in contracts and proved with Verus.

- `word`: machine words as fixed-size bit vectors (count, rank, select).
- `bits`: bit sequences made of words (slices, vectors and fixed-size
  arrays, the blocks), with rank/select by binary search, words read
  across block boundaries, and blockwise set operations.
- `bit_set`: a sparse bit set over `2^63` positions, cut into blocks of
  65536 bits and stored sparsely (`RawVec<Entry<T>>`) or densely
  (`RawVec<Words<T>>`, `RawVec<T>`); blocks combine by intersection, union
  and symmetric difference, and folds combine many sets; the traits of `bit_set::ops`
  (access, count, rank, remove) are shared by words, word vectors, blocks
  and bit sets.
- `rrr`: the class/offset coding of small blocks, with its combination
  tables.
- `flagrc`: a byte-level automaton and a character-level lexer that split
  flags files into tokens, and the expansion of variables.
- `procfile`: parsing of Procfile entries.
- `faccess`: the request of an accessibility check.

`app/` holds the command line tool and the input and output around the
library: reading files and calling the operating system.
