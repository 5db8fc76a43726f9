# urdf_loader

Loads robots described in URDF (Unified Robot Description Format) and plans what is logged of
them. The library is verified with Verus; the code in `app/` reads the files and sends the data.

- `loader`: from the path and the text of a file to the steps that log its robot.
- `xml`: which texts can be handed to the XML reader, told by a scan for their tags.
- `urdf`: robots as the `urdf_rs` crate reads them.
- `robot`: the parts of a robot that the loader works with.
- `index`: lookup by name, on the hash tables of the `ahash` crate.
- `tree`: a robot arranged as a tree of links.
- `walk`: the walk from the root of a robot over its joints to all its links.
- `log`: what is logged of a joint, of a link and of its shapes.
- `step`: files to read and messages to send.
- `resource`: where the files that a robot refers to are found, and of what type they are.
- `path`: which paths name a URDF file, and in which directory they stand.
- `text`: plain operations on strings.
- `error`: why a robot could not be logged.
- `ends`: which walks end, and how deep they go.
- `once`: how often a walk logs one thing.
- `totals`: how much a walk logs in all.
- `agree`: where two loadings come to the same.
- `laws`: what holds of every robot and of all that is logged of it.

A measure is held as the bit pattern of its IEEE 754 double. All that computes with measures is in
`app/`.
