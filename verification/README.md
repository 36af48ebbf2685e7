# feather

A small game engine: first-person walks through glTF scenes, drawn with Vulkan.

`src/` is the engine's logic as a verified library: every function states what it
returns, and Verus proves it. What other crates compute (hashes, images, JSON, BC7,
vertex orders) is called through a few wrappers whose contracts are believed; each
says what it claims. `app/` is the program around it: the window, Vulkan,
physics, files, and everything that computes with floating point. Numbers that the
library only carries are held as their bits.

- Settings and controls: `config`, `text`, `graphics`, `keys`, `controls`, `args`
- Scenes: `json`, `prefab`, `images`, `jpeg`, `png`, `texture`, `material`, `mesh`, `scene`, `level`, `demo`
- The bake: `bytes`, `hash`, `bake`, `mip`, `lod`, `worklist`
- Frames: `device`, `frames`, `layout`, `slots`, `uploads`, `draws`, `extract`, `runs`, `bench`
- Menu and play: `ui`, `menu`, `game`

The laws that hold of the library as a whole are the public proof functions whose
names start with `law_`.
