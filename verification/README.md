# scaling

A micro-benchmarking library which measures until it reaches an accuracy you
ask for, compares alternatives on shared inputs, finds how a cost scales with
the size of its input, and lets a suite of benchmarks be declared where it
belongs.

The crate is in two parts.

`src/` is the verified library: what orders, names, counts and prints, and every
decision made on whole numbers and texts. Its contracts are proved with Verus.
Whether a measurement is precise enough and whether a difference is significant
are decided in floating point, outside it; the library takes those answers and
says what follows from them.

| Modules | What they hold |
| --- | --- |
| `registry`, `version`, `resolve`, `lane`, `assemble` | from registrations to a plan: versions told apart, candidates paired with inputs by type, baselines chosen, every complaint collected |
| `diagnostic` | those complaints, and how they read |
| `plan_laws`, `pairings`, `invariance` | what holds of every plan: its order, its completeness, and that the order of arrival does not matter |
| `suite`, `scheduler`, `clock`, `family` | what a suite holds, who goes next, what each has spent, and how many comparisons were made |
| `sampling`, `ladder`, `inputs` | when a batch is large enough, when to stop, and which sizes to measure |
| `timings`, `report`, `grid`, `lines`, `layout` | results, and how they are shown |
| `filter`, `runner` | what was asked for, and what to do about it |
| `quiet`, `mask`, `reserve`, `machine` | reserved CPUs: reading, writing and planning a reservation; and whether the clock moved |
| `text`, `order`, `lists`, `reorder` | texts and lists, and the lemmas about them |

`app/` is ordinary Rust around it: clocks, closures, floating-point
statistics, files, environment variables and system calls.

Measured numbers are opaque to the library. A `Timing<M>` carries whatever `M`
the measuring side produced, and the library says only what becomes of it.
