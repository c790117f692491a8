# kiota

A type checker for the core language of Lean 4, with its behaviour proved by
Verus.

Terms, levels, contexts and declarations have a mathematical reading. Reduction,
inference and conversion call one another; each has a step that says what it
does in terms of the others, and the judgements at a budget are the steps with
the judgements at a smaller one. Every judgement of the checker is proved to be
that judgement, for every environment and every term.

- `num`, `ints`, `linear`, `ring`, `ringform`: numbers and polynomials
- `level`, `expr`, `ctx`, `env`: the core language
- `lookup`, `names`, `numeral`, `text`, `pp`, `errors`, `share`: what the
  judgements read and say
- `kernel`, `judge`: the checker and the judgements at a budget
- `reduce`, `iota`, `ext`, `closed`, `natext`, `lists`, `omega`, `ratio`,
  `intlinear`, `certs`, `commring`: reduction
- `infer`, `conv`, `value`, `nbe`, `normal`: inference and conversion, by
  reduction and by evaluation
- `positive`, `inductive`, `members`, `recursor`: inductive types and their
  recursors
- `decl`, `related`, `report`: declarations, and what is said of them
- `answers`, `verdicts`: what a checker has found, and finds again

`law_*` functions state what holds of the library as a whole.

Outside `src/`, `app/` reads the switches of the process environment.
