# rinha_fraud

A fraud scorer for card transactions. A transaction becomes a vector of
fourteen 16-bit coordinates; an inverted-file index finds the five nearest
known transactions; the share of frauds among them is the score.

`src/` is the library, verified with Verus:

- `bytes`, `layout`, `model`: the index file, and what queries find in it
- `distance`, `ranked`, `heap`, `select`: distances, the five nearest
  neighbours, the clusters to probe
- `index`, `exactness`: opening and querying an index, and when the answer is
  that of a full scan
- `search`: a fast query first, a thorough one where the fast one leaves doubt
- `calendar`, `scan`, `tx`, `features`, `score`: from a request's JSON body to
  its vector and its count
- `http`, `response`, `conn`: requests taken out of a byte stream, and their
  answers
- `balancer`: which upstream gets the next client

`app/` is the program around it: sockets, the memory map, the environment and
floating point. Its first argument `lb` turns it into the load balancer.
