# plhistr

Counts how often each value of one column of delimited text occurs and prints
the counts as a table, with or without a horizontal bar plot.

- `src/` is the verified library:
  - `delimiter`: detects the delimiter (tab, pipe, comma or space) from the
    first line of the input;
  - `text`: Unicode whitespace, trimming, and parsing of column indices;
  - `frequency`: the values of a column and their frequency table;
  - `order`: arranging a table by frequency, by value, or by numeric keys
    (a verified merge sort), with the laws that sorting keeps every entry and
    has one result;
  - `histogram`: the whole pipeline from input bytes to a frequency table,
    reading the delimited text with the `csv` crate;
  - `layout`: widths, totals and running totals for printing.
- `app/` is the command-line program: argument parsing, reading the input,
  numeric sort keys (floating point), and printing.
