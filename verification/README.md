# reed_muller

A verified library for the first-order Reed–Muller code RM(1, m), 1 ≤ m ≤ 10, and a
terminal program that demonstrates it.

The library (`src/`) is written in Verus; every function carries a contract that Verus
proves:

- `math` — integer matrices (Kronecker product, identity, parity matrix), vectors and
  binary vectors, the generation matrix of RM(1, m);
- `channel` — encoding, decoding with the fast Hadamard transform (`walsh` holds the
  mathematics and the laws: decoding inverts encoding and corrects fewer than 2^(m-2)
  errors), splitting messages into parts, corrupting bits, counting errors;
- `experiments` — one transmission of a message through the whole pipeline, with the law
  that few errors per part leave the message intact;
- `parameters`, `input`, `tui` — the parameter `m`, the characters that input fields take,
  the checks and messages of the vector scenario, and the two transmissions of the text and
  image scenarios.

The program (`app/`) is ordinary Rust around the library: the command line, the random
channel, the experiments' charts and the terminal interface.

Tests are under `tests/`.
