# motatool

A verified library for MeshCore `.mota` firmware-update containers, and a command-line tool around it.

A `.mota` is a signed, self-verifying package of a firmware update that MeshCore nodes fetch over LoRa, block
by block. The library builds such packages from firmware images, full or as a delta against a running image,
and checks them.

## Layout

| Module | What it holds |
|---|---|
| `format` | the container layout, the manifest, and parsing |
| `merkle` | the merkle tree over payload blocks |
| `endf` | the EndF identity trailer of a firmware image, versions and targets |
| `encode`, `decode` | the encoder for sequential patches, and the decoder that it is proved against |
| `build` | putting a container together |
| `verify` | what is wrong with a container |
| `crypto` | hashes, signatures and keys |
| `input` | firmware images and Intel HEX |
| `delta` | patch layouts, and the command lines of the `detools` patch tool |
| `args`, `report`, `text` | what the commands read and print |

`app/` is the command-line tool: files, URLs, processes, and printing.

## What is proved

- A patch that `encode_sequential` makes, applied to its base, gives the target, byte for byte, whatever the
  two are.
- `verify` finds nothing wrong with a container that `build` makes, if the block size is a power of two; and
  the manifest that is read back is the one that went in.
- `verify` names exactly the checks that a container fails.
- An EndF trailer is added once, and the identity in it is read back.
- The merkle root is that of the tree whose left half is the largest complete subtree, and so on down.

What is taken on trust stands in functions marked `external_body`, each with a comment on what is claimed of
the function that it calls.

## In-place deltas

An in-place patch is made by `detools`, which the tool runs through a Python script
(`$MOTATOOL_DETOOLS_PYTHON`, `$MOTATOOL_DETOOLS_SHIM`). `build::plan` gives the
two images and the window, and `build` puts the container around the patch.
