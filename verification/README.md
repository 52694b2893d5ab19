# crustivity_core

The verified core of a reactive runtime in which tasks read and write typed
parameters (variables, events, effects, resources) and constraints tie
parameters together through one or more methods.

- `src/stable_vec.rs`: a vector of buckets whose items keep their index while
  other items come and go.
- `src/world.rs`: the typed and type-erased handles of variables, tasks and
  parameters, and the markers by which a task takes a parameter.
- `src/constraints.rs`: constraints built from tasks, the constraint system
  with the strength of each parameter, the planner that selects a method for
  each constraint reached from an event (with a model of the breadth-first
  visit that its contracts are stated over), and the graph of a system.
- `src/lib.rs`: the traits by which a runtime creates data and names it.

`app/` holds what stays outside the verified library: the runtime that stores
values of any type and calls tasks through type-erased pointers, the rendering
of a system's graph with graphviz, and a demo program.
