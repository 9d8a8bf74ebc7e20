# quotaline

A status line for a coding assistant that shows the account-wide usage limits — the 5-hour and
the weekly window — with a live burn rate and a warning when the current rate would hit a cap
before the window resets. On API-key billing, where no limits exist, it shows the dollars spent
instead: this session, today across sessions, and per hour. `quotaline report` prints a fuller
breakdown from the logged samples.

## Layout

- `src/` is the library, verified with Verus: reading the payload, the sample history and its
  retention, burn rates, day spend, the rendered line, the report and the settings merge.
- `tests/` runs the library on concrete values.
- `app/` is the program around it: arguments, standard input, the files, the local clock.

## How the library is built

Amounts are whole millionths (`Micros`): of a dollar, a percent, a second or a token. A number
in the payload is a `Num`, which may also be infinite or no number at all. Its sign and whether it
is finite are decided on the digits as written. What is too large for 64 bits is held at the end
of the range, and an amount prints as the double nearest to it does. Sums are exact. What is
worked out of amounts by division — percentages, bars, times to a cap — goes through the doubles
that each step lands on (`Double`).

| module | what it states |
|---|---|
| `text`, `num`, `big`, `double` | decimal notation, reading and rounding, wide integers, double precision |
| `json` | the payload as a tree, loose accessors, which billing a payload shows |
| `series`, `history` | observations by session; when a session counts as a subscription |
| `log` | which payloads become samples, and which samples are kept |
| `burn`, `spend`, `day` | least-squares rates, caps and budgets, the dollars of a day |
| `fmt`, `bars`, `memory`, `localtime` | the parts of a line |
| `statusline`, `report` | the line and the report in full |
| `settings`, `cli` | the settings merge and the flags |

The public proof functions state what holds across calls: that a subscription's shadow cost
never counts as spend, that a session is released only by time and movement together, that
pruning keeps the evidence a hold rests on, that merging the settings leaves every other key
alone.

`serde_json` parses and prints JSON; what is assumed of it stands at the wrappers in `json` and
`settings`.

## Building the program

The build variable `QUOTALINE_HOST` is the brand of the assistant that runs the status line.
Its directory under the home directory and the names in the report derive from it.
