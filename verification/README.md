# cemantix_core

A verified solver for two word games played over word embeddings.

- **Cémantix** answers a guess with the cosine between the guess and the secret, rounded to four
  decimals. Each answer is an equation, and the secret is trilaterated.
- **QuelMot** answers with `1000 − rank of the guess among the secret's neighbours`, floored at
  −999. Each answer is a band of ranks, tested against a table of neighbour similarities.

The library in `src/` is written in Verus: every function carries a contract, and every contract is
proved. The program in `app/` is ordinary Rust around it: the command line, the files, the network,
the bindings of the web page, and the floating-point arithmetic.

## Numbers

The library never adds or multiplies floating-point numbers. It keeps them as bit patterns
(`ieee::Single`, `ieee::Double`), compares them by an order that is proved to be the numeric one,
and converts them to half precision and back with a rounding that is proved to be the nearest.
Where a similarity, an entropy or a rank has to be measured, the caller hands in a function that
measures it, and the contract speaks of what that function answers.

## Layout

| module | what it holds |
|---|---|
| `ieee`, `f16`, `bytes` | numbers as bit patterns, half precision, little-endian dumps |
| `text`, `words`, `json` | texts, plausible words, accent folding and the stem filter, JSON |
| `flags`, `order`, `stride`, `cosine` | sets of words, sorting, even sampling, similarities |
| `vectors`, `ranks`, `scoring` | the lexicon, the rank table, what a score means |
| `solver`, `partition`, `guess` | the candidates, the worth of a guess, the choice of the next |
| `hints`, `audit` | the hint ladder, and the audit of its bands |
| `oracle`, `game`, `session` | the offline oracle, a game turn by turn, what the player types |
| `replay` | why ‰ ranks change no game |
| `classic` | a Cémantix solver that can use ‰ ranks as soft constraints |
| `bin`, `model`, `site`, `events` | the model file, its caches, the site's answers, the lines shown |
| `bench`, `checks`, `engine` | the benchmark, the checks against the sites, the web engine |

Laws that relate several functions are public proof functions, named `lemma_…`, next to what they
are about: an honest answer never loses the secret (`solver`), no hint names a candidate or a word
of its family (`hints`), what is written reads back (`bytes`, `model`, `ranks`), a tabulated rank
is exact and ranks fall as similarities grow (`ranks`), every game ends (`game`).

What is believed without proof stands in `text`, `words`, `order`, `bytes` and `json`: a few
functions of the standard library and of `serde_json`, each with a comment that says what is
claimed of it.
