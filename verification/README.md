# railyard

Railyard runs a set of commands, some of them after others, and shows what they
write as they go. A command that fails does not stop the ones that wait for it.

The library (`src/`) takes the decisions, and Verus checks them:

- `justfile` and `railfile`: which commands a file asks for, and in which order;
- `commands`: the commands of a run, whether it can begin, and what is said at
  its end;
- `command`: how one command goes from waiting to its report;
- `lifecycle`: what holds of a command over its whole life;
- `yard`: what holds of several commands that run at once;
- `dependencies`: which names are ready, and who waits for the others;
- `waits`: what becomes of a wait over a history of calls;
- `watchdog`: when a run is stuck;
- `arguments`, `error`, `ordered`, `style`, `text`: what the others build on.

The program (`app/`) starts processes, reads streams, sleeps and draws progress
bars, and asks the library what to do next.
