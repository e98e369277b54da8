# libretune_core

The verified core of an engine-tuning application, written in Verus.

| module | what it holds |
| --- | --- |
| `num` | doubles as bit patterns: comparison, absolute value, clamp |
| `machine` | the host's arithmetic and rendering, as a value that callers hand in |
| `text` | ASCII case, decimal integers, search |
| `autotune::afr_validity` | refuses wideband readings that are held rather than measured |
| `autotune::delay_measure` | extracts the transport delay from an enrichment step |
| `autotune::delay_table` | aggregates delays by operating point |
| `calibration` | AFR and temperature curves: formulas, two-point lines, thermistor fits |
| `calibration::plateau` | solves a wideband calibration from the sensor's startup sequence |
| `commands` | what the application's commands decide |

## Floating point

The library holds no floating-point code. A double is a `Num`, its 64 bits, and
every comparison is decided on the bits. Sums, products, logarithms and decimal
renderings are asked of a `Machine`, two functions that the caller supplies. A
contract names the result for every `Fp`, a pair of mathematical functions,
that the machine follows: what is proved holds of any arithmetic that gives one
answer to each question. The laws that need more of it say so: that it keeps
order (`Fp::orderly`), gives results that a double can hold without rounding
(`Fp::exact`), rounds the others by no more than their 2^-52nd part
(`Fp::close`), and gives equal results for equal numbers (`Fp::fair`). IEEE 754
arithmetic does all four.

`app/` supplies the host's doubles, serialisation, logging and the desktop
commands; `tests/` runs the library on doubles.
