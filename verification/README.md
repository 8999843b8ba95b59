# acbot_edge

The decision logic of an edge-cloud flow deployment daemon and of the node
monitor that goes with it, written in Verus and proved against its contracts.

- `src/daemon`: the stages, the task chain of each stage, and the state
  machine that decides what the daemon thread does next (which task runs,
  retries after failures, how signals move it between stages); `runs.rs`
  states what holds over whole runs of that machine.
- `src/service/topo_order.rs`: puts a topology of edge domains, compute nodes
  and edges in order from the domains' roots, typing each reached node as
  `leaf` or `non-leaf` and recording its parent.
- `src/service/flow_plan.rs`: turns stored flow definitions into flow
  instances, carries out the scheduler's answer, and plans one deployment
  record per operator.
- `src/service/flow_service.rs`, `src/service/topo_service.rs`: the services
  that hold the flows and the topology.
- `src/service/*_laws.rs`, and the `law_*` proof functions elsewhere: the
  properties that hold across calls.
- `app/`: the programs around the library (HTTP backend, daemon thread,
  database, Kubernetes, scheduler and monitor I/O), which Verus does not see.
- `tests/`: tests of the library on concrete values.
