# Bonolith

Japanese input: kana is segmented into words, the words are converted to kanji,
and what the user chooses is learned.

The library (`src/`) holds everything that decides something, proved against
its contracts with Verus:

- `trie`, `entry`, `pos`, `dictionary`, `builtin`, `tables`: words and how they
  are found
- `lattice`, `segmenter`, `merge`, `segmentation`: splitting kana into words
- `alternatives`, `candidates`, `user_scorer`, `rerank`, `sentence`: ranking
- `conversion`, `resize`, `engine`: a conversion that is going on
- `dispatch`, `client`, `gate`, `keymap`, `config`, `signals`, `factory`: keys
  and what they do, for a C interface and for the IBus input bus
- `store`, `json`, `llm`, `words`, `command`, `matrix`: formats and decisions
  around the database, files, the language model, dialogs and the command line
- `text`, `scan`, `textmap`, `rank`, `nano`: what the others are built on

Scores are integers in billionths. Logarithms come in as tables of such numbers.

`app/` is the program around the library: the input bus, the C interface, the
database, files, dialogs and the client of the language model.

`tests/` runs the library on concrete values.
