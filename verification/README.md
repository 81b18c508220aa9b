# ocirender

Merges the layers of an OCI image into one root filesystem: a tar archive, a
directory, or a squashfs or erofs image. Images come from an image directory
(OCI layout or Docker save layout) or from a registry.

The library in `src/` is verified with [Verus](https://github.com/verus-lang/verus).

| module        | what it holds |
|---------------|---------------|
| `path`        | archive paths: components, keys, order, normalising |
| `archive`     | tar archives as values, and the calls into the `tar` crate |
| `canonical`   | headers with their extended header records |
| `layers`      | compression of layer blobs |
| `tracker`     | whiteouts, written paths, hard links |
| `model`       | what merging means |
| `overlay`     | the merge |
| `resequence`  | layers that arrive in any order |
| `laws`        | what holds of every merge |
| `image`       | image directories: manifests and where layers are |
| `packer`      | output formats and progress |
| `sink`        | arguments of the image writers, and what their outcome means |
| `verify`      | comparing two directory trees |
| `digest`      | SHA-256 digests |
| `registry`    | references, authentication, credentials, fetching |

`laws.rs` and the last section of the other modules state what holds beyond a
single function. Functions marked `external_body` call other crates; their
contracts are stated and not proved, and their doc comments say what they claim.

`app/` is the command line program: it reads and writes files, talks to
registries, runs the image writers, and leaves all decisions to the library.
