# mastermind

A terminal MasterMind game: the player guesses a secret number, digit by
digit, and is told how many digits sit in their place and how many occur
elsewhere. Accounts are kept in a text file, one `id,name,password,score`
line each.

- `src/` is the verified library (Verus): `text` (reading and writing
  decimal numbers, trimming, splitting, lines), `account` (accounts and
  their record lines), `list` (a persistent linked list), `store` (the
  account store: loading, saving, searching and ordering by id),
  `settings`, `game` (scoring and the turns of a game) and `menu` (the
  menus' decisions).
- `app/main.rs` is the program around it: the terminal, the account file,
  the clock, and the game and menu loops.
- `tests/` runs the library on concrete values.
