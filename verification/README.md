# skuiz

A framework for audio plugins whose instances keep in sync, with its core
verified in Verus: one processor serves CLAP, VST3, AUv3 and a standalone
application, and instances of a plugin share parameters over a bus, in one
process or across several.

## Layout

- `src/` is the verified core. Every function carries its contract; the
  properties that span functions are the public proof functions named `law_*`.
- `tests/` runs it.
- `app/` is what talks to the outside: the plugin formats' C and COM
  interfaces, sockets and pipes, the web view, the audio device, Pure Data,
  and floating-point samples.

| Module | What it decides |
| --- | --- |
| `bus`, `scratch`, `wire` | which audio buses are declared, and which host buffers a processor sees |
| `params`, `mirror`, `processor` | parameters, their readable copy, and saved state |
| `ring`, `engine`, `handle`, `diag`, `notice` | who may touch the processor, what waits in queues, what was lost, what the host still has to be told |
| `block`, `render` | where a block is split so that automation is sample accurate |
| `lww`, `instance` | which of two concurrent changes stands, and what crosses the bus |
| `text`, `protocol`, `messages` | the messages of editors and of the bus |
| `ipc` | framing, local delivery, election and promotion |
| `midi`, `hostmidi` | MIDI 1.0 and 2.0 messages, and what hosts get of them |
| `ports`, `hosttext`, `stateio` | what hosts are told, their strings, and their streams |
| `tick`, `standalone` | fixed-size DSP under arbitrary block sizes; device channels |

## Conventions

Parameter values are the bits of a 64-bit float: the core moves and compares
them, and leaves arithmetic to the processor. Host buffers are named by
numbers. Shared state is owned by one value with `&mut self` operations; the
shell puts it behind a lock.

A processor implements `processor::Processor`. What its methods promise is
written as specification functions of the trait, so that the engine's
contracts can speak of them.
