# vm_rust

Verified core of a Director movie player's bitmap and stage helpers,
written in Verus.

`src/` is the verified library:

- `manager` — the bitmap store: anchored, ephemeral (reference-counted)
  and lazily decoded bitmaps by reference number.
- `mask`, `grid`, `bit_storage` — one-bit masks, the 4-connected flood
  fill, and the mask (dark pixels), colour mask and matte builders of
  bitmaps.
- `bitmap` — the bitmap model those read and store.
- `dialog`, `text` — FileIO filter masks: their glob patterns, extensions
  and name matching.
- `member_names`, `host_text` — host-declared member lists and text
  corrections.
- `filmloop_probe` — film loop diagnostic counters and traces.
- `stage` — stretch-style parameter, which stage properties scripts read
  and set, the stage image bitmap, and the box average of a stage capture.

`app/` holds what Verus does not take: the per-thread stores the host page
fills, the floating-point stage geometry and the JavaScript file dialogs.
