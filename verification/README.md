# combathelper

A combat tracker for tabletop role-playing games: characters with hit points, an
initiative order, and an interactive prompt that loads characters, starts a combat and
passes turns. The library is written in Verus; its functions carry contracts that the
verifier proves.

- `src/model` — characters: the rule-independent `CharacterSheet`, and D&D characters
  with damage, healing, ability modifiers and initiative rolls.
- `src/combat` — the roster of characters, the initiative order (a stable sort by
  falling initiative) and the combat session with its two phases.
- `src/cli` — reading commands, what each command does to the session, tab completion
  and the rows of the character tables.
- `src/text` — decimal numbers, integer parsing and splitting on white space.
- `app/` — the program around the library: command-line arguments, JSON files, the
  terminal prompt and table rendering.
