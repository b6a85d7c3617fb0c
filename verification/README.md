# rust_study

Small data structures and tools, verified with Verus.

- `src/` — the verified library:
  - `stack`, `queue`, `vec_queue`, `ring_buffer`, `linked_list`, `tree`: containers with
    their views, invariants and laws (last in first out, first in first out, the
    search-tree order);
  - `sort`: selection sort, proved to sort and to keep the elements;
  - `words`: splitting on white space and the longest word;
  - `helper`, `engine`: overflow-checked addition and the matching machine of a
    regular-expression engine, run depth first or breadth first, both proved to
    answer whether the program accepts the line;
  - `shell`, `decimal`: command-line parsing and the job tables of a job-control
    shell, with the invariant that ties jobs, process groups and processes together.
- `tests/` — tests of the library.
- `app/` — the programs: printing demos and the shell's terminal, signal and
  process handling (`app zerosh`).
