# calc2

An arithmetic-expression calculator, verified with Verus.

- `src/segment.rs`: the tokenizer (`Segmentor`), specified step by step, and
  the proof that tokenizing loses nothing but spaces.
- `src/expr.rs`: the expression tree `Expr` and the precedence parser
  (`Expr::segment`, `Expr::from_segments`, `Expr::try_from_segments`,
  `Expr::from_str`), specified by `parse_outcome` over token sequences;
  invalid input gives `None`.
- `src/literal.rs`: the grammar of number literals accepted by the standard
  float parsers, and a checker proved against it.
- `src/utils.rs`: small helpers (`is_num`, `is_even`, `is_odd`, `is_digit`,
  `last_index`).
- `src/laws.rs`: properties of the parser: parsed leaves are valid numbers,
  redundant and outer parentheses do not matter, joining rejects exactly the
  tokens that are no operators, and, for two operators between three
  numbers, the tighter one applies first and equal ones group to the left.
- `app/`: the program; it evaluates trees with `f64`, which stays outside the
  verified library.
