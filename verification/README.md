# bevy_pf_vector

A vector/UI rendering engine for Bevy, with its logic verified by Verus.

One narrow bet: HUD content has mostly-static topology, so paths are
tessellated once per content (by lyon) and redrawn as instanced geometry.

## Layout

    src/          the verified library
      scalar, order, hashing, keyed     numbers as bit patterns, sorting, digests, maps
      path, hud, painter, layers        what is drawn: outlines, styles, clips, masks
      bez, pen, dash, crowd, tess       outlines to kurbo and lyon, and back as triangles
      render/                           cache, extraction, clips, gradients, draw order,
                                        batches, uploads, pipelines, the pass
      bench/                            the benchmark harness: command line, workloads,
                                        sampling, statistics, the report, the vello scene
    app/          the engine as a Bevy plugin, and the harness's `main`
    tests/        tests of the library

Floating-point numbers are bit patterns in the library (`Scalar`). What has to be
computed in floating point (matrices, animation, colour blending) is computed in
`app/` and handed in.

The shaders (`shaders/vector.wgsl`, `shaders/vector_param.wgsl`,
`shaders/vector_sdf.wgsl`) are loaded from the asset folder at run time.

## What is proved

Every function of `src/` has a contract; functions named `lemma_*` that are
public state properties of the whole, such as:

- a shape whose content is known costs one instance and no tessellation: nothing
  is asked of its outline that a tessellator would need; and a
  scene does not lose its geometry because it is large
  (`render::extract`, `render::cache`);
- behind a frame, all that it draws is in the cache, and without a flush what the
  cache held is where it was (`render::extract`);
- a frame's draws are those of its instances over where their geometry lies now,
  also where last frame's draws are kept (`render::prepare`);
- every part with triangles is drawn once, opaque groups front to back and in one
  draw each, blended parts back to front (`render::batch`);
- a view draws exactly the batches and primitives whose layers it sees, each
  once, the same with indirect draws as without, and one that sees them all needs
  one multi-draw per phase (`render::pass`);
- an outline tells its commands, each once and in order (`tess`);
- control and engine draw the same workload (`bench::workload`);
- what is drawn is drawn under exactly its own clips (`render::clips`,
  `bench::scene`).

Calls into other crates stand behind small functions marked
`#[verifier::external_body]`, whose contracts say what is taken on trust.
