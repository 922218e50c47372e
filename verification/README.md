# brc

Minimum, mean and maximum temperature per weather station, from a text file of
`station;temperature` lines, printed on one line with the stations in byte
order:

```
{Abha=-31.9/18.0/67.3, Abidjan=-29.7/26.0/76.8, Abéché=-23.1/29.4/77.9, ...}
```

An input holds station names of 1 to 100 bytes and temperatures from -99.9 to
99.9. A table takes up to 65,536 stations and 4,294,967,295 readings of each.
Lines are not checked beyond what reading them takes: a line without a `;`, or
without a temperature after it, or cut off, stops the scan; so does a reading
that a table has no room for. Temperatures are integer tenths
throughout, and the mean is rounded half-up toward +∞ in exact integer
arithmetic.

The library in `src/` is verified with Verus, without trusted code:

| Module        | Holds |
|---------------|-------|
| `model`       | what a set of readings amounts to, and how summaries add up |
| `bytes`       | byte strings and eight-byte words |
| `hash`        | the station hash, fused with the search for the `;` |
| `temperature` | temperatures as text, as words and as tenths |
| `table`       | the open-addressing table |
| `lines`       | `station;temperature` lines |
| `scan`        | scanning a byte range that arrives block by block |
| `chunks`      | cutting a file at line starts |
| `report`      | sorting and printing |
| `pipeline`    | the whole: any cut into blocks and any assignment of chunks to threads gives the summary of the file |

`pipeline::law_valid_input` states what the parts amount to together.

`app/` is the program: file access, threads and standard output. `tests/` runs
the library.

    brc [path]      # path defaults to measurements.txt
