# cfb_directory

The directory of a compound file (the "structured storage" format): a tree of named
storages and streams, kept in the sectors of one chain, with the sector allocator
underneath. The library is written in Verus; its contracts are proved.

The library does no input or output. A `Directory` changes in memory and collects the
writes that the file has yet to receive; `flush` hands them out in order. `app/` holds
a wrapper that makes these writes on anything that implements `Write + Seek`.

- `consts`, `version`, `bytes`, `time`, `error`: the numbers of the format, the two
  versions, encodings, timestamps and errors
- `names`: the order of names, and paths as chains of names
- `direntry`: directory entries and their form in the file
- `storage`, `allocator`: the layout of sectors, the file allocation table, and chains
- `tree`, `shape`, `model`: the trees that the links of entries form, how to tell
  whether they do, and what adding and removing objects means for them
- `validity`: what is held against the entries of a file
- `entries`: listings
- `directory`: the directory itself
- `search`, `upkeep`, `history`, `listings`, `chains`, `sync`, `fat_sync`: theorems
  about all of this, such as that an object is found after it is added and that the
  file follows what is in memory

Adding an object keeps a directory valid. Removing one keeps it valid but for one thing:
nodes are not recolored, so two red nodes in a row may remain among the siblings of the
removed object.
