# helix

A verified core for the Helix runtime, its migration tools and its render surface.

- `src/migrate`: reading web pages and scripts, and turning them into guest code: discovery, syntax
  trees, transpilation, type inference, optimization, deployment, and the planner over them.
- `src/runtime`: capabilities and the broker that grants them, the host state behind the capability
  interfaces, content addressing and its networks, streaming manifests and decoder choice, documents
  and style sheets, painting and frame comparison.
- `src/appfront`: a small CSS subset, and what each node of a document becomes in a layout tree.
- `src/strings.rs`: text as sequences of characters.
- `tests`: the library run on concrete values.
- `app`: the engines, windows, networks and floating-point geometry around the library.

Every function of the library states in its contract what it returns or changes, over mathematical
views of its data, and Verus proves it. Laws that span several functions are public proof functions
whose names start with `law_`. What the library has from other crates goes through a few wrappers;
each says above it what is believed of the call.
