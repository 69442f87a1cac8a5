# incremental

The core of incremental view maintenance for a SQL database, as a verified library.

A materialized view is compiled to a circuit of operators over Z-sets, rows with weights. A change
of a table flows through the circuit and comes out as a change of the view, which is committed to
the view's own storage or, inside a transaction, laid over it by the cursors that read it.

- `value`, `zset`, `row_index`, `state`, `hash`: rows, weights, and what operators keep between changes
- `antijoin`, `probe`: the operator for rows without a match, and how its state is read
- `logical`, `plan`, `ast`: plans and syntax trees
- `expr`, `filter`, `aggregate`, `join`, `cte`, `decorrelate`, `builder`, `compiler`, `circuit`:
  from plans to circuits
- `display`, `show`: circuits, values and expressions as text
- `deltas`, `execute`, `commit`, `write_row`, `layout`: running a circuit and writing what it puts
  out
- `numbers`, `order`, `overlay`, `snapshot`, `cursor`, `index_cursor`, `upstream`: reading a view,
  with the changes of the open transaction laid over it
- `view_walk`, `index_walk`: what is seen by going through a view or an index from end to end
- `mirror`, `scope`, `rewrite`: mirrors of foreign tables
- `names`, `text`, `seqs`, `error`: shared ground

Functions whose work is interleaved with storage are state machines: they are handed what the
storage has answered and say what it is to do next. `app/` drives them.
