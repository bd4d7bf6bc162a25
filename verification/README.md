# Caravan

Caravan runs a large language model on a chain of small machines. Each machine holds a contiguous
slice of the model's layers; activations travel forward from machine to machine, and the token that
the last one samples travels back to the client.

The library under `src/` is the verified core. It decides; it opens no socket and runs no kernel.

- `bytes`, `wire`, `network`: the messages, their binary form, and their frames on a byte stream.
- `settings`, `text`: command-line options, and the reading and writing of text.
- `steps`, `pipeline`: every step of a forward pass over a slice of layers.
- `bounds`, `cache`, `partition`: what holds of the steps of passes: they stay inside what a node
  has, cache exactly their tokens, and taken together are those of one node with the whole model.
- `compute`, `batch`, `chain`: what passes compute, whatever the kernels do: nothing left in a
  workspace matters, a pass can be repeated, and it does not matter how a prompt is cut up or over
  how many nodes the layers are spread.
- `worker`, `swarm`: a worker as a state machine, and what holds of a chain of them.
- `turn`, `client`, `status`: one turn of a conversation, and the client around it.
- `http`, `chat`: the web console of a client.

The program under `app/` does the input and output: it performs what the state machines ask for,
tells them what happened, and carries out the steps of a pass with floating-point kernels.
