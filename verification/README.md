# mahjong hand scoring, verified

A library that reads a riichi mahjong hand, tells whether it is a winning
shape or one tile away from one, and scores a self-drawn win (fu, han,
yakuman and the payments). Each function is proved by Verus to compute
what spec functions of the library describe; those specs follow the
scoring rules as this library counts them, its own peculiarities included
(for instance, the ikkitsuukan and suuankou tests as written here never
fire on real tiles). One step is trusted rather than proved: sorting the
tile indices, which calls the standard library's `sort`.

- `src/index.rs`: tile indices (0..136), kinds (0..34) and names (suit, number).
- `src/count.rs`: counts per kind; seven pairs, thirteen orphans, head candidates.
- `src/agari.rs`: whether counts split into a head and melds.
- `src/mentsu.rs`: melds and the enumeration of every split of the numbered suits.
- `src/calc.rs`: fu and han of one split.
- `src/han_order.rs`: the han of a split does not depend on the order of its melds.
- `src/score.rs`: payments from fu and han.
- `src/hand.rs`: the hand itself: parsing, drawing, discarding, quads, yakuman
  and the best score over all splits.
- `app/main.rs`: a small program that scores one hand and prints it.

Each module states its laws as public proof functions named `law_*`.
