# automations

Grid automata that shape a world map in stages, each one a keystroke in the
program:

1. **Seeds** are dropped on empty cells in the middle of a square world.
2. **Plates** grow out of the seeds: an empty cell next to `a` plate cells
   joins a plate with probability `(a / 4)^2`.
3. **Sub-plates** spread from coloured seeds over the plates, get smoothed
   towards the colour most of their neighbours share, and have their front
   lines traced on a hexagonal grid laid over the world.
4. The sub-plates are laid out as bodies of a collision world.

`src/` is the library, verified with Verus: the square `Table` and the
hexagonal `HexTable`, the draws made from a seeded ChaCha8 generator, and the
rules of each stage, each with a contract. `app/` is the Bevy program around
it: windows, input, pictures, and the floating point geometry of the
hexagonal grid on screen.
