# oxideav-render

A 3D-scene to raster-image renderer whose logic is verified with Verus. Two
backends stand behind one surface: a scanline rasteriser with a depth buffer,
and a Whitted ray tracer with shadows, reflection and refraction. Both frame a
scene with the same camera, light it with the same light and encode colours
the same way.

## Layout

`src/` is the verified library.

| Module        | Content                                                            |
| ------------- | ------------------------------------------------------------------ |
| `number`      | binary32 numbers as bit patterns: order, rounding, conversion      |
| `arith`       | the arithmetic that a caller hands in, and names for its results   |
| `math`        | vectors and matrices                                               |
| `image`       | RGBA8 images and the box filter                                    |
| `options`     | render options and their validation                                |
| `error`       | errors                                                             |
| `scene`       | scenes as plain values, and the walk over the node forest          |
| `camera`      | bounding box, camera framing, primary rays                         |
| `shade`       | light, Lambert shading, encoding of colours, normals and depths    |
| `framebuffer` | colour and depth buffer; drawing as a sequence of fragments        |
| `line`        | lines on the pixel grid                                            |
| `raster`      | triangle filling with edge functions                               |
| `scanline`    | topologies, primitives, the scanline backend                       |
| `bvh`         | hierarchies over triangles and the ray queries that walk them      |
| `raycast`     | baking, Whitted shading, the raycast backend                       |
| `frame`       | frame size and supersampling                                       |
| `renderer`    | the renderer trait, the backends, the factory                      |
| `registry`    | lookup of backends by name                                         |
| `source`      | a scene as a source of video frames                                |
| `equivalence` | what makes no difference to an image                               |
| `text`        | numbers and escaped names as text                                  |

`app/` joins the library to the machine's arithmetic, to `oxideav_mesh3d`
scenes and to `oxideav_core` frame sources. `tests/` runs the library with the
machine's arithmetic.

## Reading the contracts

The library decides what to add, multiply and compare; it does not do the
arithmetic. Functions take a value of a type that implements `Arith` (or
`RayTests`, for ray queries), and their contracts name what its operations
return: `sum(k, a, b)`, `product(k, a, b)` and so on. A contract of the form
`repeatable(k) ==> ...` holds for every arithmetic that answers the same
question the same way. Comparison, rounding to integers and conversion from
integers are the library's own and proved against the value of the bit
pattern. `Notation` hands in the text of a number, for messages.

`Renderer` and `MakeRenderer` are for backends from elsewhere. An
implementation says with a predicate of its own (`renders`, `yields`) what its
call can come out as, and the library's contracts hand that on.

What is drawn is described as a sequence of fragments, and a frame as what is
left when each was tried against the depth buffer. Laws that relate several
functions are public proof functions whose names begin with `law_`.

## Trusted items

- `raycast::triangle_list` calls `oxideav_mesh3d`'s
  `Primitive::triangle_indices` and states which triangles it returns.
- `text` specifies `String::push` and names what `char::escape_debug` makes of
  a character outside ASCII.
- `error::scene_text` reads the text of an `oxideav_mesh3d::Error`; nothing is
  claimed of it.
- `oxideav_mesh3d::Error` is declared as an opaque type.
