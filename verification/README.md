# winny

The platform-independent core of the winny game engine, written in Verus
with its behaviour stated in contracts and proved.

- `ecs::entity`: the generational entity allocator (spawn, reserve,
  despawn, relocation) with its model `EntitiesModel` and the laws that
  relate its operations.
- `ecs::commands`: the deferred command queue and the builders that fill it.
  The ECS world itself (component storage, resources, events, entity
  access) is not part of this library: the queue records commands and hands
  them back, newest first, for the world to apply.
- `png`: the PNG decoder: a byte reader, a bit reader, chunk parsing, the
  IHDR header, scanline unfiltering and the whole `to_bytes` pipeline. Zlib
  inflation is done by `libflate`.
- `gfx`, `render`, `window`, `logging`, `engine`: texture-atlas layout,
  sprite animation frames, pixel maps, render handles, window settings,
  log levels and the key input buffer.

`app/` is a small command-line program that decodes PNG files with the
library and reports their size.
