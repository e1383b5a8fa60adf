# thread_local

Per-object thread-local storage: a separate value for each thread, kept in an
object instead of a static.

The library in `src/` is verified with Verus.

- `thread_id`: allocation of thread ids, the place of an id in a table of
  buckets, and the record a thread keeps of its own id.
- `local`: `ThreadLocal`, a growing chain of lists whose newest one has a slot
  for every value, and the iterators over its values.
- `list`, `iter`: the chain itself and a cursor over its occupied slots.
- `cached`: `CachedThreadLocal`, with a fast path for the first thread that
  writes.
- `mutex`, `flag`: a mutex for little contention, with a pause that grows while it
  waits, and the flag that it sets.
- `maybe_uninit`, `rustc_version`: storage for a value that may not be there, and
  the probe that tells whether a compiler brings its own.

The values of a `ThreadLocal` are a map from thread ids to values, and every
operation is specified by what it does to that map. The proof functions whose
names begin with `law` state what holds across operations.

`app/` unlocks the mutex when its guard is dropped, and drops the value with the
mutex. It puts the objects behind a lock and takes the id of the running thread
from a thread-local static, so that they can be shared between threads.
