# terra_wm

The window-management logic of terra-wm, a Wayland compositor built on
smithay, as a verified library, with the compositor around it in `app/`.

- `src/geometry.rs`: integer points, sizes, rectangles; output transforms.
- `src/tiling.rs`: the tiling layout engine (a horizontal row of tiles with
  a focus, equal-share widths clamped to client minimums, drag-resize with a
  compensating neighbour, cleanup of closed windows) and its laws.
- `src/vscreen.rs`: the vscreen grid of a layer and the smallest monitor size.
- `src/layer.rs`: cascade placement and minimized windows of one layer.
- `src/wm.rs`: the layer stack, the active layer, top-down hit search.
- `src/cli.rs`: command-line parsing.
- `src/drm.rs`, `src/grab.rs`: decisions of the DRM/udev backend and of the
  resize grab.

`app/` is the compositor: protocol handlers, rendering, the winit and
DRM/udev backends. It keeps smithay's objects (windows, spaces, outputs)
and hands the library window ids and integer sizes.
