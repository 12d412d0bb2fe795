# partest

A distributed cargo test runner. Machines that run `partest daemon` advertise
themselves on the local network. `partest run` lists the tests of a project,
splits them into batches, sends the sources to every machine that it finds,
builds the tests there and lets each machine take the next batch whenever it is
idle. `partest status` lists the machines.

## Layout

- `src/` is the library: what is computed and decided, with contracts that Verus
  proves. It does no input or output.
- `app/` is the program around it: the command line, mDNS, SSH, processes and the
  progress bars.
- `tests/` runs the library on concrete values.

| module      | what it holds                                                     |
|-------------|-------------------------------------------------------------------|
| `text`      | order of texts, decimal notation, ports, joining, columns         |
| `order`     | a stable sort by textual key, and its deduplication               |
| `nextest`   | the test list: binary and name of each test                       |
| `batch`     | splitting the list into batches, the filter expression of a batch |
| `shell`     | arguments as words of a shell command                             |
| `remote`    | the commands that run on the workers                              |
| `output`    | the bytes of both output streams put into lines                   |
| `ssh`       | what a channel reports, exit codes, the private key, errors       |
| `discovery` | peers, how long to listen, which peers remain                     |
| `daemon`    | what a machine advertises                                         |
| `dispatch`  | handing out batches until none is left                            |
| `progress`  | what is shown of each worker                                      |
| `run`       | the decisions of a run, from the test list to its end             |
| `summary`   | the report on a run                                               |
| `status`    | the table of peers                                                |
| `cli`       | the command line                                                  |
