# message_router

A server that clients send messages to one another through, with its logic
verified by Verus.

A client that connects is sent its ID: four bytes, most significant first. From
then on it sends messages, each made of the ID of the client that it is for, in
the same four bytes, and then bytes of which the last, and only the last, is null.
The server hands that client the bytes with the null byte and without the ID.

There are several ways for a server to read from and write to many clients at once,
and this project has eight of them:

| module                | how                                                        |
|-----------------------|------------------------------------------------------------|
| `shared_socket`       | a task per client, each client's stream behind a lock      |
| `naive`               | a task per client, all streams in a table that they share  |
| `mutex`               | a task per client, all writing halves behind one lock      |
| `channel_per_writer`  | a reading and a writing task per client, and a dispatcher  |
| `race`                | one task that races futures, copying messages              |
| `race_zero_copy`      | one task that races futures, handing buffers on            |
| `indexed_hand_rolled` | one task that polls everything itself, copying messages    |
| `hand_rolled`         | one task that polls everything itself, handing buffers on  |

`src/` decides: each module is a state machine that is told what came of a read, a
write or a poll, and answers what to do next. `app/` does: it holds the listener,
the streams and the tasks, and asks `src/`. `wire` and `message` are the format that
all of them share, `history` says what a whole run comes to for each client, and
`buffers` says what the library takes for granted about the `bytes` crate.
