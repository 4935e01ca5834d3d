# vhd

A verified library for Microsoft VHD (Virtual Hard Disk) images: fixed,
dynamic and differencing disks, read and written. Everything under `src/` is
checked by [Verus](https://github.com/verus-lang/verus).

The library does no I/O. Opening, reading and writing are operations that
hand out one request to a backing device at a time (read these bytes, write
those, flush) and go on with its answer, so that every order of device
requests is part of what is proved.

## What is proved

- Opening refuses exactly the images whose footer, dynamic header or block
  allocation table cannot be believed, and says why. A damaged trailing
  footer is made good from the copy at offset 0.
- A finished read returns the disk that the guest sees: the image's own
  sectors, the parent's where it has none, zeros where nobody has any.
- A finished write has spliced its payload into that disk and changed no
  other byte. An image that had its trailing footer opens again as it was
  written, with that footer at its end, unless the metadata lies so that the
  write runs over it: a fixed disk that reaches into its footer, a block
  allocation table that shares bytes with the dynamic header, or either of
  these reaching into the trailing footer. A write to a dynamic disk that
  allocates no block runs over none of them, nor does any write where they
  lie apart.
- Under the same condition, and where there is a copy of the footer at
  offset 0 that the write does not run over, a write to a dynamic disk that
  stops after any of its requests leaves an image that opens, in which every
  byte is the old or the new one. No range of the device is ever handed out
  twice.
- A differencing image opens only with the parent whose identity it names.
  One that has no name for its parent, or whose parent is not found beside
  it, does not open.
- Fresh images open, at the size asked for, all zeros.

## Layout

```
src/
  footer.rs, dynamic.rs, format.rs   the structures on disk
  table.rs, opening.rs               which images are believed
  reader.rs, reading.rs              what the guest sees
  writing.rs                         the write path, request by request
  footer_build.rs, creating.rs       fresh images
  error.rs, text.rs, tool.rs         what is said to a person
  *_laws.rs                          what these promise together
tests/                               the library on devices held in memory
app/                                 files, block devices, the C ABI, vhd_tool
```
