# vyges-extract

RC parasitic extraction: a routed layout and a per-layer RC deck in, an IEEE 1481
SPEF netlist out. The rules, the parsers and the writers are a Verus library whose
contracts say what is read, computed and written; a small program around it does the
I/O.

## Layout

`src/` is the verified library.

- Input: `def`, `ndr` and `rails` (routed nets, non-default widths, power rails),
  `lef` and `tech` (widths, thicknesses, vias, technology layers), `rules` and `deck`
  (the RC deck, read and written), `job` (what to extract), `gds` (traced metal),
  `hookup` (pin directions and loads).
- Model: `geom`, `sight`, `grid` and `coupling` (who couples with whom), `field`
  (the capacitance kernel), `rc` (lumped values), `junction`, `tree` and `graph` (the
  distributed network).
- Laws by themselves: `drawn` (no resistor is invented), `conserve` and `balance`
  (what the parts of a net add up to), `cutting` and `rounding` (the same in decimal
  fixed point), `limit` (the limit on pairs), `shielding`, `refs` (references in the
  text), `roles` (layer maps in parts).
- Output: `spef`, `date`, `notice`, `coverage`, `guard`.
- The program's decisions: `engine`, `cli`, `klayout`.
- Ground: `number`, `text`, `strmap`, `sort`, `version`.

Geometry is in whole picometres. Electrical values are of any type that implements
`number::Real`: `number::Fixed` is decimal fixed point and fully specified; the
program brings binary floating point.

`tests/` runs the library on concrete layouts. `app/` is the command line program:
files, environment, threads, and the shared readers for liberty, GDS and KLayout
dumps.

## What is proved

Each function states its result. Facts that span functions are public proof
functions: that every net is written as one network, that no resistor is invented,
that every reference in a netlist resolves, that coupling does not depend on how the
scan is divided, that sight is mutual, that a deck which is written reads back, that a
layer without a rule is an error.

That every net is written in full is proved twice: to the last digit where arithmetic
is exact, and for `number::Fixed` up to rounding. There the parts of a net never exceed
it and fall short by less than a billionth each, beside a billionth of what its network
sums to, and cutting wire at its taps costs less than two billionths of capacitance a
piece. What binary floating point rounds away is not bounded here.
