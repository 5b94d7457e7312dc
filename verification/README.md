# NANOBYTE

Wire format, mote model and ground-side analysis for a swarm of sensor motes.
The library under `src/` is written in Verus: every function states what it
computes, and, but for the few calls into other crates named below, its body is
proved to do so. The program under `app/` does the I/O around it.

## Library

| Module | Contents |
|---|---|
| `types`, `mote` | Shared types, the classifier of a mote and its telemetry frame |
| `be`, `crc16`, `proto` | Byte order, checksum and the frame format |
| `hexbytes`, `desk` | Frames as lines of hexadecimal digits, the desk mote's ring and dashboard |
| `ground`, `sim`, `selftest` | Ground control's pages and checks, the swarm simulator, the self-test |
| `text`, `calendar` | Text, numbers and timestamps |
| `probe`, `store` | Log lines and the keys and values of the event store |
| `rank`, `groups`, `timeline` | Ranking, grouping and ordering of events |
| `probes`, `asn`, `geo`, `access` | Reports on probes, autonomous systems, places and visitors |

Proof functions whose names start with `law_` state what holds across functions:
decoding reads back encoding, corrupt payloads are refused, keys sort
chronologically, the ring holds the latest frames, and so on.

Calls into `crc`, `hex`, `zstd`, `blake3` and two of std's string functions stand behind small
trusted items, each with a comment that says what is taken on trust.

## Program

`nanobyte ground | ground-serial | hive | intel | sim | test`
