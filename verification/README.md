# kexec-menu

A filesystem-agnostic boot menu that starts kernels with kexec. It finds the
filesystems of a machine, walks the boot tree of each (`boot/**/entries.json`),
shows one tree of sources and entries in the terminal, and boots what is chosen.
Encrypted sources can be unlocked from the menu; the key is then handed on to the
booted system in an additional initrd segment.

A build may do without some features (`Features` in `types`): browsing whole
filesystems, the rescue shell, and the list of disks to look at. A locked-down
build has none of them.

The logic is a library verified with Verus. The program around it reads the
machine and carries out what the library decides.

## The library (`src/`)

| module | what it holds |
| --- | --- |
| `text`, `path`, `sort` | text and byte helpers, paths, a stable sort |
| `types` | sources, boot trees, entries, selections, errors |
| `json`, `tree` | the JSON files, the walk of a boot tree, static entries |
| `select` | the choice of the default entry |
| `keys` | terminal keys, input events, and mixing the two |
| `menu`, `screen`, `treeview`, `render` | menus, the tree view, what keys do, what is drawn |
| `session` | the menu while it is shown: what each key and each outcome leads to |
| `mount`, `devices`, `discover` | filesystem types, labels, device groups, the discovery of sources |
| `steps` | booting, unlocking and mounting a group, step by step |
| `kexec` | the remembered selection, the key archive, what booting an entry takes |
| `reach` | that everything is shown, and that the default is preselected and booted |
| `boot` | arguments, timeout, countdown, and what is done with what was chosen |

Each function states what it returns in terms of mathematical models of its
arguments (the views of the types). Properties that span functions stand as public
proof functions beside them. What the library takes from std without a proof is in
`text`.

## The program (`app/`)

`main` runs the menu; `devices`, `files`, `kernel` and `terminal` do the reading,
mounting, loading and drawing.
