# upskill

A viewer that projects 3D points onto a 2D window and draws the lines between
them, rotating about the Y and Z axes (Vulkan, winit).

`src/` is the verified library (Verus):

- `cli` — command-line arguments (`-file`/`--file`/`-f`, `-id`/`--id`, `-help`/`--help`/`-h`, positional id);
- `parser`, `points`, `connets`, `number`, `text`, `question` — the input file
  (`<question id=...>` blocks with `points:`, `connets:`, `width:`, `height:`) and
  choosing a question;
- `geometry` — which edges a frame draws and the quad index lists;
- `raster` — pixel addressing and colour channels;
- `gpu_setup` — queue family, device, surface format, extent and image-count choices.

`app/` is the program: file reading, floating-point projection and clipping,
CPU rasterisation and the Vulkan renderer. Shaders are compiled at start-up from
`shaders/vert.wgsl`, `shaders/line.frag.wgsl` and `shaders/point.frag.wgsl`.
