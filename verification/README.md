# five_lines

Review a pull-request diff against the ten refactoring rules of Christian Clausen's
*Five Lines of Code*. Every decision the review takes is verified by Verus, except where a Jev
probability is compared with its thresholds: those are floating-point comparisons, made by the
command line, which hands the library the outcome.

Rules 1, 3, 5, 6, 8 and the antonym pairs of rule 10 are decided by parsing: each changed
method is found with its language's tree-sitter grammar and its statements, `if`s and switches
are counted. Rules 2, 4, 7, 9 and the other affixes of rule 10 need a judgment: a typed yes/no
question to the Jev model, asked only when the construct it is about is among the added lines.

Layout:

- `src/` is the library, verified:
  - `diff` reads a unified diff; `units` finds the changed methods; `tree`, `syntax` and `lang`
    hold the parse; `rules`, `inherit` and `affix` are the rules; `jev` and `batch` decide what is
    asked and under which keys; `review` settles each method and orders the findings; `report`
    renders Markdown; `evaluate` tallies Jev's scores against labelled snippets; `pattern` and
    `text` are the regular expressions and the text operations; `laws` states and proves what holds across them.
- `app/` is the command line: it reads files, runs git, talks to Jev, compares probabilities with
  the thresholds and prints the report.
- `tests/` runs the library on concrete inputs.
