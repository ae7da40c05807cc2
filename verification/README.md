# legend-of-r

The game logic of the Legend of R shooter as a verified library, with the
Bevy engine glue around it.

- `src/animation/discrete.rs`: animations made of discrete stops that can be
  played backwards. Stops are kept sorted, one per instant; rewinding
  restores the value in effect at the earlier instant; groups of stops that
  lie wholly in the future are dropped on unpausing or rewinding.
- `src/animation/adapters.rs`: the decisions of the animation adapters
  (disabling, flattening, playing before or after an instant, bracketing the
  stops an interpolation runs between, replacing components).
- `src/animation/timeline.rs`: pausing, rewinding and scrubbing a timeline
  from input and from its control panel.
- `src/force.rs`: the force's state machine (docking, launching, recalling),
  its steering, and the stops its state changes record.
- `src/gltf/`: the rewriting of glTF node extras into the layout the
  reflection deserializer reads, over a model of JSON values.
- `app/`: Bevy systems that read the world, call the library's decisions and
  apply their answers; time readings as instants; conversions to and from
  `serde_json` values; reflection-based deserialization of components.

Instants are integer keys that sort as the clock readings they stand for;
`app/time.rs` maps readings to keys and back.
