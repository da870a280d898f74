# total_order_multicast

Total-order multicast between one master and several workers. The master asks
every worker for a proposal, picks the proposal with the lowest sequence
number (ties broken by the lower worker id) and builds its broadcast, stamped
with the master's Lamport clock; a worker that receives accepted messages
delivers them in the order of those logical times (from 0 on, without gaps,
holding back early arrivals) and folds their contents into a small replicated
state.

The master never advances its clock, so every stamp is 0, and the runner in
`app/` does not send the accepted broadcast to the workers: it only computes
it. No worker therefore delivers anything when the program runs.

- `src/` is the verified library (Verus): the Lamport clock, the workers'
  priority queue of undelivered messages, the master's proposal handling and
  worker bookkeeping, and the workers' delivery logic, each with its contract.
- `app/` runs master and workers as Kompact components around the library.
- `tests/` exercises the library on concrete values.
