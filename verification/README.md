# load_balancer

A proxy load balancer whose decisions are verified with Verus.

- `src/` is the verified library: host addresses, hosts and their recent
  response times, the pool of hosts (round robin, least connections, the
  switch between them, adding and removing hosts), and the configuration of
  the balancer and of its workers.
- `app/` is the program around it: the HTTP proxy (hyper), the worker
  (axum), the accept loop and the periodic re-choice of the algorithm.
- `tests/` runs the library on concrete pools.
