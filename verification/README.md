# csearch

A trigram index for regular-expression search over source trees, verified with
[Verus](https://github.com/verus-lang/verus).

A *trigram* is three consecutive bytes. `cindex` records, for every trigram, the
sorted list of files that contain it. `csearch` turns a regular expression into
a boolean query over trigrams, intersects and joins the lists to get a set of
candidate files, and matches only those with the real expression.

## What is proved

- A document in which an expression matches satisfies the expression's query
  (`cover`), and the candidates that an index gives for a query are exactly the
  files whose trigrams satisfy it (`eval`, `search`). So a search through the
  index reports every file that grepping all of them would report.
- Reading an index gives back the roots, names and posting lists that were
  written (`roundtrip`), the counters of a build agree with what is read back,
  and batches of another size give the same index (`search`). A damaged file is refused with the reason, and nothing
  that follows can fail (`read`).
- A line on which a match starts lies in a hit, and on the first line of every
  hit a match starts; at most one hit is reported per line, and none for the
  line that does not follow a final newline (`grep`).
- The files to index are those that are judged fit, each once, in path order
  (`files`, `order`), and every list of files that an index gives ascends, even
  where the index is damaged (`read`, `eval`).
- Of the roots that are kept none lies inside another, and every root lies
  inside one of them (`roots`).
- What a stamp records is read back, and an index counts as current only while
  the stamp names the same roots and every one is in the state that was recorded (`gitstate`).

## What is trusted

The contracts of a few outside functions: searches for bytes (`memchr`), the
parser and the tree of regular expressions (`regex_syntax`), matching
(`regex`), one parallel sort (`rayon`), and UTF-8 decoding (`std`). Each stands
in one small item whose comment says what is claimed of it.

## Layout

- `src/`: the library, all of it verified.
- `tests/`: its tests.
- `app/`: the programs `cindex` and `csearch` around it, in one executable:
  arguments, files, directories, `git` and threads.
