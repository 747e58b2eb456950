# Folder Lock

Password protection for a folder. Everything in the folder is packed into, or
hidden behind, an encrypted vault inside the folder, and restored from it again.

| Mode | Contents | Manifest |
|------|----------|----------|
| full | encrypted with AES-256-GCM into the vault, 1 MiB at a time | encrypted |
| simple | in alternate data streams of `.flockhost`, not encrypted | encrypted |
| move | moved into the hidden `.flockdata`, not encrypted | encrypted |

The key is derived from the password with Argon2id (64 MiB, three passes) under a
random salt.

## Layout

`src/` is the library. It is written in Verus: every function carries a contract,
and the laws below are proved. It decides everything and touches nothing: an
operation on a folder is a `job::Job`, which names one action on the disk at a time
and is told what came of it. `app/` performs the actions and draws the screen.

| Module | What it holds |
|--------|---------------|
| `crypto`, `stream` | key derivation, one-shot encryption, chunked encryption |
| `text`, `path`, `sort` | decimal and little-endian numbers, names, paths and their order |
| `manifest`, `vault` | the formats, and the plans of locking, unlocking and resuming |
| `walk`, `job`, `fault` | collecting a folder, running a plan, messages of failures |
| `logic`, `window`, `session`, `dialog`, `cli` | the front ends |
| `disk` | a model of the folder that the laws are stated over |
| `clearing`, `storing`, `restoring`, `streaming`, `laws`, `crash`, `legacy`, `order`, `icon` | the laws |

## What is proved of a folder

- Locking leaves nothing behind but the vault, the store and protected names, and
  unlocking with the same key gives back every directory and every byte. That holds
  of every folder whose relative paths have no backslash and no `..` in them and
  whose sizes fit the fields of the formats.
- Locking a locked folder again does nothing.
- The stream of one file in the place of another is refused, and so is a stream that
  was cut short.
- A streamed vault whose metadata does not number its streams is unlocked all the
  same.
- Whatever bytes a stream holds, only chunks that were encrypted under the key at
  hand, each at its place, are written; a frame that the cipher refuses ends it.
- The icon that the window sets behind a plan changes nothing else.
- A lock that is interrupted at any action has either changed nothing yet, or can be
  finished from the vault; an unlock that is interrupted can start anew.
- Where a stored content is lost, every other file comes back, the loss is named, and
  the vault stays.
- Whichever actions fail, nothing in the folder is touched before the vault is in
  place, nothing is removed before its content is stored, and an unlock that fails
  removes neither the vault nor the store.
- No path or name that is read from a vault leads out of the folder.

What the outside crates compute is stated in `crypto` and believed: that Argon2id
and AES-256-GCM are functions of their arguments, that a ciphertext opens to the
plaintext that it was made from, and that one that opens is made from what it opens
to. That a ciphertext made under another key, or changed since, does not open is the
cipher's promise and is not stated.

## Vault

```text
[salt: 16 bytes]
[mode: 1 byte]        0 full (first format), 1 simple, 2 move, 3 full
mode 3:  [length: u32] [nonce || ciphertext of the metadata] [stream of each file]
else:    [nonce || ciphertext of the manifest]
```

All integers are little-endian. A stream is a nonce of seven bytes and frames of
`[last: u8] [length: u32] [ciphertext]`; any other value of `last` than 0 and 1 is
refused.

Metadata of version 3 numbers the streams: with `n` for the first seven bytes of the
nonce of the metadata, the stream of the entry at index `i` has the nonce
`n + 1 + i`, modulo 2^56. A stream under any other nonce is refused. Metadata of an
earlier version leaves the nonces of its streams open.

A vault that is being written, and each file that is being restored, goes through
`.flockvault.tmp`, a name that is never packed.
