# fraud-detection-api

Scores card transactions by the labels of their nearest neighbours. A load balancer passes
the sockets of its clients to the scoring servers; a server reads the request, turns the
transaction into a vector of 14 quantised features, looks up the five nearest reference
vectors in a compact inverted-file index and answers with the share of frauds among them.

`src/` is the verified library. It holds no floating point: features and centroid distances
come in as quantised numbers or as the bits of single precision numbers, and the distances
of quantised vectors are computed on integers, rounded as single precision would round them.

| Module | What it holds |
| --- | --- |
| `bytes`, `wire` | byte slices; little-endian numbers, read and written |
| `grammar`, `json`, `payload_laws`, `documents` | the payload of a request, its reader, its laws, and what it says as a document |
| `calendar`, `normalization`, `features`, `config` | dates, timestamps, what features take from a transaction, settings |
| `http`, `connection`, `server` | requests and responses, the state of a client's connection, the slots of clients |
| `rounding`, `distance`, `selection` | rounding to 24 bits, distances, keeping the nearest few |
| `index`, `index_laws`, `preprocessing` | the index as a byte stream, how it is built, that it is read back |
| `probing`, `search`, `search_laws` | what the search finds, the search itself, and its laws |
| `balancer`, `evaluation` | the decisions of the load balancer and of the offline evaluation |

One function is trusted: the random choice of the first centroids in `preprocessing`, which
calls `rand`.

`app/` is the program round the library: `api` (the default), `lb`, `optimizer` and
`preprocessor`, named by the first argument. It does the input and output and the floating
point arithmetic.
