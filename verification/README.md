# gravity

An N-body gravity simulator with an interactive 3D viewer, split in two parts.

- `src/` is the verified library (Verus):
  - `system.rs`: the structure-of-arrays simulation state (`SystemState`), adding
    bodies, and the bounded orbital trails;
  - `canvas.rs`: the RGBA frame and its drawing primitives (clearing, filled circles,
    the integer line algorithm), each with an exact pixel-level contract;
  - `scene.rs`: body colors, trail colors and the radii of the ecliptic grid;
  - `controls.rs`: the viewer's keyboard and mouse decisions (pause, speed, reset, zoom)
    and the frame-rate counter.
- `app/` is the program around it: command-line parsing, the floating-point physics
  (random initial conditions, gravitational accelerations, the Velocity Verlet
  integrator), the camera projection, scenario files, and the window.
