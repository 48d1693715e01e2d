# maprando

Item placement for a map randomizer, verified with [Verus](https://github.com/verus-lang/verus).

Given a map, the data of the game and a difficulty, the library puts an item at each of the
hundred item locations so that the items open up the map step by step. In each step it sets the
flags that have come within reach, chooses items for every free location that can be reached, and
picks up what can be picked up. A step counts if every item has then been placed at least once,
or if a location comes within reach that could not be reached before. A spoiler log tells where
each item is first found and how to get there and back.

## Layout

- `src/` is the library.
  - `items`, `game_data`, `traverse`, `state`: the data, and the trait `Traversal` through which
    the model of the game is asked which vertices can be reached and what items do.
  - `doors`: preparing a map. `validity`: deciding whether the tables of a game fit together.
  - `reachability`, `flags`, `selection`, `single`, `placement`, `spoiler`: the parts of a step.
  - `step`, `randomize`: a step, and an attempt as a whole.
  - `counting`: bookkeeping of items.
  - `laws`, `log`: what holds of item placement as a whole, and of the spoiler log.
  - `steady`, `draws`, `outcome`: with a model that gives the same answer whenever it is asked
    the same, the state of the generator determines what comes of an attempt.
  - `outside`: the calls into `rand` and `hashbrown`, with what is relied on of them.
- `tests/` runs the library.
- `app/` prints the progress of an attempt, and turns spoiler logs into a form that `serde` can
  store.

## What is relied on

Nothing is assumed of an implementation of `Traversal`: the contracts hold for every answer that
it may give, and an answer that item placement cannot go on with ends the attempt with a
`Failure`. Of shuffling it is relied on that it keeps the elements; of a set of names, that it
holds the names that were collected into it. That shuffling the same elements with a generator in
the same state gives the same order is not relied on: where a law needs it, it is a premise.
