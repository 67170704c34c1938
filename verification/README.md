# neosuggest

A suggestion engine for zsh-autosuggestions. Given the command line being
typed, it asks its sources (the current directory, `zoxide`, the programs on
`PATH`, a few basic commands) for a completion and prints the first one found.

- `src/` is the verified library: the ordering of sources by priority, the
  choice of the first suggestion among the sources enabled for the word, the
  reading of the command line (words, byte cuts, shell quoting, where
  `argmap` panics), paths as component sequences and as the text
  that stripping a prefix or taking a parent leaves, `~` expansion and its
  inverse, and what each source makes of its input and of what it found.
- `app/` is the program around it: arguments, the async search over the
  enabled sources, the file system, the environment, running `zoxide`, the command
  database on disk, and the fuzzy matching, which works on floating point.
- `tests/` exercises the library on concrete values.
