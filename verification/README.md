# Programming Game

A small game in which you write one script and a crew of workers runs it, one instruction per
tick, on a map of 20 by 15 tiles. Workers gather energy, grass and wood, carry up to two items,
and deliver them to the base.

```
# Gather one energy, then deliver.
while not carrying(energy) {
  navigate_to(closest, energy)
  pickup(energy)
}
navigate_to(closest, base)
drop
```

The rules of the game are a Verus library; the window is a Bevy app around it.

## The library (`src/`)

| module | what it holds |
| --- | --- |
| `grid`, `tiles`, `walk` | positions, sets of positions, walks and their order |
| `world` | terrain, the tile map, connecting its parts |
| `path` | shortest paths; where workers start |
| `motion`, `anim`, `camera` | single steps; states between which the view interpolates; drags |
| `inventory`, `program` | resource kinds, loads and stocks; instructions |
| `text`, `lexer`, `parser` | from program text to instructions, or to a message |
| `blocks` | programs as nested blocks, and the jumps that they become |
| `layout` | what of a program's text counts |
| `highlight`, `editor` | colours for program text; the editor and its labels |
| `rules`, `sim` | one tick, as functions on mathematical states and as code |
| `laws`, `ledger` | what holds of every tick |
| `setup` | what is on the map at the beginning |

Numbers that the screen needs as floating point are kept as integers here: yaws in quarter turns,
places in half cells, elevations as the bit patterns of single-precision numbers.

## The app (`app/`)

Meshes, materials, the camera, the side panel, the terrain's elevation, and the systems that hand
the states of the entities to the library and make the changes that it orders.
