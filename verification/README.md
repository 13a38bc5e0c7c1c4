# rinha

Fraud detection by nearest-neighbour search: a transaction is turned into 14 quantized
features, its five nearest reference transactions vote, and it is approved if fewer than three
of them are frauds.

The logic is a verified [Verus](https://github.com/verus-lang/verus) library under `src/`; its
executable functions carry contracts, and what holds of the library as a whole is stated in
proof functions whose names begin with `law_`. The program around it, with the files, the
sockets and the floating-point features, is under `app/`.

## Library

| Module | What it holds |
|--------|---------------|
| `request`, `vector`, `calendar`, `text` | reading a scoring request: fields, numbers, timestamps, merchants |
| `quoted`, `fields`, `written` | how a request is written, and that its two readings agree |
| `writer`, `dataset`, `partition`, `sorting`, `bytes` | building the reference files, checking and loading them |
| `index` | exact search in the partition of the query, leaving out blocks that lie too far |
| `ivf`, `ivf_build` | the cell index: k-means, vectors grouped by cell, search in the nearest cells |
| `nearest`, `topk`, `distance` | what "the nearest" means, and keeping them |
| `accuracy` | an exhaustive search to compare with |
| `http`, `config`, `balancer` | connections and answers, settings, sharing connections out |

Among the laws: leaving out blocks loses nothing (`law_pruning_loses_nothing`), a search over
loaded files finds the nearest of what was written (`law_search_finds_written_samples`), what is
built can be loaded (`law_built_files_load`) and answers every query
(`law_consistent_index_answers`), a request is read as what was written
(`law_written_request_is_read`), by its text and by its fields alike (`law_readings_agree`), how
a request is cut into reads does not matter (`law_reads_can_be_joined`), each scored request is
answered and its connection stays open (`law_scored_request_is_answered`), and an answer
approves below three votes (`law_answer_follows_votes`).

## Program

```text
rinha                                      serve requests
rinha lb                                   share connections out to workers
rinha build-dataset <references> <dir>     build the data set and the index
rinha accuracy-test [dir]                  compare the index with an exhaustive search
```

Settings come from the environment: `PORT`, `NORMALIZATION_PATH`, `MCC_RISK_PATH`,
`DATASET_DIR`, `FD_SOCKET_PATH`, and `UPSTREAMS` for the load balancer.
