# datafusion-jev

Ask questions about your text from SQL. `prompt_jev` sends each row to the Jev
inference service and returns a typed answer: a probability, a choice from a list
you define, or a score on a scale you define.

```sql
SELECT prompt_jev(body, 'What is this about?', choice := ['billing', 'technical', 'sales']) AS c
FROM tickets
```

The logic is a library that Verus proves correct; the parts that talk to
DataFusion and to the service stand around it.

## Layout

- `src/`: the library. Every function carries a contract, stated over the
  characters of its texts, the trees of its expressions and the contents of its
  JSON values.
  - `sql`: from the SQL syntax to a validated question, and the rewrite of calls.
  - `plan`, `planner`, `hoisting`: calls move beneath the nodes that cannot plan
    them.
  - `optimizer`: cheap filters run before inference, equal calls run once.
  - `request`, `answer`, `number`: what is sent and what is accepted in return.
  - `batch`: distinct texts, requests, retries, and where the answers go.
  - `udf`, `dialect`, `error`: types, configuration and messages.
- `app/`: DataFusion's traits, the HTTP client's trait, async plumbing, and the
  sum of probabilities, which is floating point. It needs DataFusion 55 with the
  `sql` feature. The library does not, so `Cargo.toml` leaves that large dependency
  to whoever builds `app/`.
- `tests/`: the library run on concrete values.

## What is proved beyond the contract of each function

- Exactly the well-posed questions are accepted; rewriting leaves no `prompt_jev`
  call behind, changes nothing else, and is idempotent. The order of the options
  does not matter.
- Hoisting leaves no call where none can be planned in the whole plan, its
  subqueries included, keeps the columns of the plan in order, and is idempotent.
  In each node it keeps what every expression means, computes each distinct call
  once, and keeps the calls of a join on their side.
- Filtering first keeps the same rows; deduplication changes no column.
- Every text is asked about once, in exactly one request within the limits, and
  once all requests have ended, in any order, every row has the answer for its own
  text. NULL is never asked about.
- An outage ends in NULL after three attempts; a rejection fails at once.
- An accepted answer has the form that was asked for and the type that was planned.

## What is trusted

`json` states what `serde_json` does to a value, over what the value holds, and
`text` what `str::to_lowercase` does. Nothing else is taken on trust.
