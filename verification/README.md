# cljrs

The core of a Clojure runtime's native side, written and verified in Verus.

* `src/` is the library. Values and persistent collections (`value`, `array_map`, `hash_map`,
  `hash_set`, `sorted_by`, `transient_set`), reader forms (`form`, `anon_fn`, `reader_cond`,
  `form_value`), a triple store on ordered tables (`codec`, `rows`, `lmdb`, `store_model`, `store`,
  `store_laws`, `store_history`, `slice_laws`), timestamps (`calendar`, `instant`, `time`), numeric
  kernels and random streams (`doubles`, `rng`, `float_math`, `kernels`, `num`, `num_calls`,
  `num_arrays`, `csv`), mutable host objects (`javamap`, `java_laws`), the runtime's roots,
  bindings, output and traces (`gc_roots`, `stack_scan`, `dynamics`, `io_target`, `call_trace`,
  `interrupt`, `debug_modes`), isolates (`crossing`, `isolate`), child processes (`process`), AWS
  requests (`wire`, `creds`, `sign`, `s3`, `aws`), sessions (`session`, `system`, `boot`,
  `versioned`) and the bridge to an nREPL (`bencode`, `qt`).
* `app/` is the host side: files, sockets, child processes, the clock and floating point.
* `tests/` runs the library.

Doubles are bit patterns throughout; arithmetic on them is a function that the caller supplies.
