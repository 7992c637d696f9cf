# reconcile

Matches the journal entries of a general ledger with the transactions of a bank statement.

The lines of the ledger are grouped by their identifier. A bank transaction is a candidate for a
journal entry if the amounts, without their signs, agree within a cent and the dates lie within
fifteen days of each other. Candidates are scored by how similar the descriptions are. Each entry is
matched with at most one transaction, and each transaction with at most one entry, by one of two
algorithms:

- `heuristic`: candidates that are not convincing are dropped; the entries take turns, and an entry
  may displace another one that finds a different transaction;
- `maxflow`: as many entries as possible are matched, and among all such matchings one of the least
  total cost is chosen, the same one whenever the candidates are the same.

`src/` is the library, verified with Verus. Its modules, from the bottom up:

| modules | what they hold |
| --- | --- |
| `text`, `digits`, `error`, `order`, `sums` | text, numbers in text, errors, orders and sorting, finite sums |
| `amount`, `datetime` | amounts in cents, timestamps in minutes |
| `places`, `buckets` | hash maps |
| `token`, `weights` | tokens of descriptions, how often they occur, which are shared |
| `records`, `table`, `load`, `ledger` | bank transactions and journal entries, and reading them |
| `candidate`, `listing` | candidates, and finding them |
| `rank`, `admission`, `search`, `heuristic` | the greedy matcher |
| `network`, `cut`, `capacity`, `blocking`, `dinic` | flow networks, cuts, maximum flows and how the search for them goes |
| `heap`, `course`, `mincost` | cheapest flows, and how the search for them goes |
| `matching`, `maxflow` | the matcher that uses flows |
| `matcher`, `report`, `cli` | choosing an algorithm, match records, the command line |

`app/` is the program around it: files, floating point scores, and what is printed.
