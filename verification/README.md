# kosu

A recursive disk crawler and junk finder. Its rules are in the library under `src/`, written in
Verus and verified: the contract of each function states what it gives, and public proof
functions state what holds of a whole run, such as that a scan lists every entry that it can
reach once and nothing below junk. The program under `app/` makes the system calls, runs the
threads with their loops, and draws the screen; it is ordinary Rust, and nothing is proved of it.

## Modules

| Module | What it holds |
|---|---|
| `args` | The command line |
| `paths`, `lex` | Paths as components: order, ancestors, joining, file names |
| `order`, `sums` | Stable sorting; sums over sequences |
| `text` | Numbers, sizes and names as text |
| `platform` | Directory records of macOS, Linux and Windows |
| `walker`, `pool` | The parallel walk: descent, sums, completion; tasks and stealing |
| `crawl`, `totals` | Which directories a walk reads; what its workers count, and what that adds up to |
| `counters` | What a walk has met |
| `patterns`, `junk` | Junk directories: names, markers, size on disk |
| `usage` | What a directory tree takes on disk |
| `scan`, `accumulate`, `prepare` | From what the workers collect to sorted hits and a sized tree |
| `findings` | What a whole scan finds |
| `tree`, `view`, `junk_view`, `tree_view` | What the two tabs show and what their keys do |

## Trust

Two things are taken on trust: `String::from_utf8_lossy`, in `text`, and the deques of
`crossbeam-deque`, in `pool`. Each wrapper says in its comment what it claims.

## Usage

```
kosu /path/to/scan              # walk, without sizes
kosu /path/to/scan -s           # with sizes
kosu /path/to/scan --list       # print every path
kosu /path/to/scan -t 8         # eight threads
kosu clean /path/to/scan        # find junk, in the terminal
kosu clean /path/to/scan | less # find junk, as text
```

| Key | Action |
|---|---|
| `j` / `k` | Move down / up |
| `g` / `G` | First / last row |
| `Space` | Change the selection of a row |
| `a` | Select or deselect all |
| `d` / `Enter` | Delete what is selected |
| `s` | Tree tab: by size or as a tree |
| `l` / `h` | Tree tab: expand / collapse |
| `1` / `2` | Junk / tree tab |
| `q` / `Esc` | Quit |
