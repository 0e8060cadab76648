# president

Daifugo (President) for four seats as a reinforcement-learning environment,
written in Verus.

- `src/` is the verified library: cards (`card`), the table of the 462
  actions (`action`), the local rules (`rule`), the game itself (`env`), bit
  counting (`bits`) and the laws that span several operations (`laws`).
  Every public function states what it returns or changes over spec
  functions; the one trusted item is the shuffle of the deck.
- `tests/` runs the library on concrete games.
- `app/` is the command-line program around it: the random opponents, the
  loop that asks them for their moves, the rewards (floating point), the
  network and its input encoding, and printing.
