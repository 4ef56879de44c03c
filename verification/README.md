# brainsort

A stable sort for keys that map to an ordered integer: numbers, strings, dates,
ids. It avoids comparing keys wherever the key type allows it and does less work
when the input already has structure. The library is written in Verus, and Verus
proves that every sort gives the stable sort of its input, and that what a sort
reads, writes, compares and asks for is a function of its input.

```rust
brainsort::sort(&mut names);
brainsort::sort_by_key(&mut rows, |r| (r.group, Desc(r.id)));
brainsort::sort_by_key_ref(&mut rows, |r| r.name.as_str());
brainsort::sort_by(&mut rows, |a, b| a.id.cmp(&b.id));
```

- `src/` is the library. `order.rs` says what a stable sort is, `key/` what a key
  is and how keys are ordered, `record/` the records that stand for the elements,
  `algorithm/` the routes of the sort, `compsort.rs` and `infer.rs` the sorts by a
  comparator, `api.rs` and `lib.rs` the entry points.
- `src/bench/` holds the measurements: inputs, counters, rows and tables.
- `tests/` run the compiled library.
- `app/` is the command line of the measurements: files, the clock, the allocator.
