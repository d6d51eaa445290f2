# Pizza Factory

A decentralised pizza factory. Nodes announce their capabilities and recipes to each other over
UDP, take orders over TCP and pass them on until every action of the recipe has been executed.

## Layout

- `src/` is the library, written in Verus. Functions carry their contracts, and what holds of the
  library as a whole stands beside them as public proof functions. Of what the machine's clock
  shows nothing is promised.
  - `recipe`: recipes, their grammar and their one-line text form
  - `protocol`, `network`: messages, frames on TCP, gossip over UDP
  - `node`, `store`: what a node knows, and the orders that a client has placed
  - `server`: requests, as steps from state and event to next state and task
  - `cli`, `tui`: what the client and the interactive interface do and show, as plain text
  - `text`, `text_facts`, `order`, `string_map`, `number`, `clock`, `ids`: what these rest on
- `app/` is the program around it: command line, sockets, threads, CBOR and JSON, terminal.
- `tests/` runs the library on concrete values.

## Recipes

```text
Margherita =
    MakeDough
    -> AddBase(base_type=tomato)
    -> [AddCheese(amount=2), AddBasil(leaves=3)]
    -> Bake(duration=5)
    -> AddOliveOil
```

A step is an action, two or more actions in brackets, or an action with a repeat count (`^4`). Recipes
are separated by blank lines. On the wire a recipe is one line, which reads back as the same recipe
(see `recipe::roundtrip` for exactly when).

## Running

```bash
pizza-factory start --host 127.0.0.1:8000 --capabilities MakeDough,Bake --recipes-file examples.recipes
pizza-factory start --host 127.0.0.1:8001 --peer 127.0.0.1:8000
pizza-factory client --peer 127.0.0.1:8001 order Margherita
```
