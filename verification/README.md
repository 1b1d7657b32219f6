# Tokon Tech Log

The tech log for MARVEL Tōkon: a notebook of combos, matchups and notes for
each of the 20 characters, with the player's own team pinned at the top.

- `src/` is the library, written and proved with Verus: the roster and the
  saved data (`model`), the notation parser (`notation`, and the simpler
  `basic_notation`), the CSV bridge with the spreadsheet (`csv`), and what
  the screen shows and how it answers the user (`screen`). `text` holds the
  character-level pieces they share.
- `app/` is the web interface (Yew): storage in the browser, downloads,
  dates and the components that paint what the library computes.
- `tests/` runs the library on concrete cases.
