# probdisasm

Probabilistic disassembly over superset decodings: every byte offset of a region
of machine code is decoded, hints and constraints between the candidates are
collected, and the candidates are weighed against each other.

`src/` is the library. It holds what is decided exactly: decoding the superset,
collecting hints, building the factor graph, moving hints and invalidity along
control flow, recovering control-flow graphs, computing ground truth from debug
information, calibrating and grading scores, choosing between calibration maps,
and making adversarial binaries with known labels. Every function has a contract,
and Verus proves it. Scores are compared by order-preserving integer keys and
shares are exact fractions, so nothing there depends on rounding. Calls into
capstone, goblin, gimli and flate2 stand behind small functions whose contracts
say what is taken on trust.

`app/` is the command-line program: files, arguments, belief propagation and
statistics in floating point, and one command per experiment.

`tests/` runs the library on concrete values.
