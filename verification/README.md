# exhume

A resumable disk imaging and rescue tool, with its logic verified by Verus.

exhume reads a source (block device or file) block-wise and writes it to a
target, recording progress in a human-readable TOML state file. An interrupted
run resumes by re-running the same command; a failed read is isolated down to the
dead sectors, which are recorded and skipped. Every run keeps a BLAKE3 manifest:
`--verify` checks the target against it, `--refresh` touches only what changed
and repairs what the last verify found.

## Layout

- `src/` is the library: every decision the tool takes, with contracts that Verus
  proves. It does no I/O. The copy, the manifest gap filling and the verify pass
  are state machines: each names its next action, is told the outcome, and moves
  on.
- `app/` is the program around it: the command line, files and devices, signals,
  the progress display, and the TOML and JSON formats.
- `tests/` runs the library, among others against a disk held in memory.

| Module | What it holds |
| --- | --- |
| `region` | the map of untried, done and bad extents |
| `hash` | the chunk grid and the streaming manifest hasher |
| `copier` | the copy, refresh and retry passes |
| `gapfill`, `verify`, `readback` | reading the target back |
| `world`, `effects` | what whole runs guarantee |
| `plan` | the stages of a run before and after the copy |
| `engine`, `params`, `path`, `safety`, `state` | parameters, guards, the state file, the outcome |
| `cli`, `rounding` | sizes on the command line |
| `mapfile`, `report`, `status`, `text`, `time` | what is shown and written |
| `platform` | what differs between systems |

## What is proved

Of a copy whose reads report what source and target hold: every byte marked done
is on the target; a run that completes has copied the whole domain; done bytes are
never touched again; a byte turns bad only where a read of at most one sector
failed, stays bad without a retry, and with one only if such a read failed again;
nothing but the source's bytes is written, and only inside the domain; every new
digest is that of the source's bytes; and running a completed copy again does
nothing. A run can be resumed from any of its checkpoints, even after a write that
failed half-way, and over a changed domain. Of a refresh: what it leaves alone is
vouched for by the manifest, what a verify pass listed is rewritten, and with
`--skip-unchanged` the target itself is compared. Of a gap-filling pass: it adds
digests where there were none, and changes no other. Of a verify pass: its list is
exactly the damaged chunks, however often it was interrupted.

What is not proved is named where it is used: the BLAKE3 hash and the rendering of
sizes and dates are outside functions with stated contracts.
