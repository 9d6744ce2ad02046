# KGG Decryptor

A verified library that decodes encrypted music files offline, and the desktop
application around it.

- `src/` is the library. Each function states in its contract, over sequences of bytes
  and characters, what it returns, and Verus proves that it does.
- `app/` is the application: the window and its commands, the file system, and the
  queries on the key database. The window is built with Tauri.
- `tests/` runs the library on concrete files.

| Module | What it holds |
| --- | --- |
| `formats` | the choice of the decoder by file name |
| `kgg`, `kgm`, `kwm`, `ncm`, `qmc_file` | the decoders of the containers |
| `qmc`, `double` | the stream ciphers, and the one floating-point value they need |
| `ekey`, `tea` | the derivation of stream keys |
| `database`, `keys`, `songs` | the key database, its keys and its songs |
| `watch`, `jobs` | waiting for downloads, and the work on one file or a batch |
| `audio`, `bytes`, `text` | recognition of audio, numbers in bytes, names and decimals |
| `outside` | what is believed of outside crates |

Decoding uses keys that the music client has stored on the machine. A file whose key is
not in its database cannot be decoded.
