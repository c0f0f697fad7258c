# pxar

A reader and writer for the proxmox archive format (.pxar), written in Verus: what each function
returns, changes and refuses is stated in its contract and proved.

An archive is a list of items, each with a header that gives its type and size. The items of a
directory are its metadata, then its files, each after its name, and at the end a *goodbye table*:
a binary search tree of the hashes of the names, which allows finding a file without reading the
whole archive.

* `format` holds the items and their layout in bytes.
* `encoder` writes archives, in one stream or with the contents of files in a stream of their own.
* `decoder` reads an archive from start to end.
* `accessor` finds files in an archive by their paths and opens their contents.
* `goodbye_table` and `binary_tree_array` build and search the goodbye tables.
* `laws` relates the parts: decoding gives back what was encoded, looking up a path finds the file
  that was added under it, a hard link leads to its target, and a cache that is true to the archive
  changes nothing of this.

The `model` modules of `encoder`, `decoder` and `accessor` say what the three do, as functions on
sequences of bytes. `app` is a command line program around the library, with readers and writers
for files and for asynchronous streams.
