# rtic_zero

A minimal RTIC-style framework for Cortex-M: applications are described as a
set of tasks with priorities, bound interrupts, shared and local resources;
resources are locked under the Stack Resource Policy; and the glue code of an
application is generated from its description.

The library in `src/` is verified with Verus:

- `syntax` — the application description (`TaskSet`, `Task`, `Resource`, ...).
- `analysis` — resource ceilings: the highest priority of the contexts sharing a resource.
- `ceilings` — the same analysis over explicit task/resource and task/priority tables.
- `priority`, `resource`, `mutex` — the running priority and hosted SRP locking.
- `backend` — logical-to-NVIC priority mapping and the lock plans of the Cortex-M backend.
- `tokens`, `codegen` — identifier and token checks, and generation of the glue code.
- `keyed` — the association lists used for the tables above.

`app/` holds what is not verified: JSON load/save of task sets, writing the
generated code to a file, and the Cortex-M side of locking (BASEPRI writes,
critical sections, NVIC configuration) that executes the verified lock plans.
