# yo_compat

A differential tester for RESP servers. It sends the same commands to a real
Redis and to yodb and reports every reply that is not the same, worst first.

- `src/` is the library, proved with Verus:
  - `text`: the `str` operations the readers use (trim, lines, ASCII case,
    Unicode whitespace, the order of strings), stated over `Seq<char>`.
  - `corpus`: splitting corpus lines into arguments, reading corpus files,
    the register of agreed divergences, choosing the corpus files of a
    directory.
  - `resp`: replies as they arrived, their one line form and error word.
  - `wire`: framing a command, and reading one reply out of the bytes
    received so far.
  - `report`: sorting disagreements, the tally of a run, the report's
    order, and the command line.
  - `launch`: when to probe a starting server again, and when to give up.
- `app/main.rs` is the program: processes, sockets, files and output.
- `tests/` runs the library on concrete inputs.
