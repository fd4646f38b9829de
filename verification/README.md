# raytracer

A CPU ray tracer whose format and bookkeeping logic is verified with Verus.

- `src/` is the verified library:
  - `text.rs`: white space, trimming, splitting into words, decimal numbers;
  - `lines.rs`: reading a buffer line by line, each line decoded as UTF-8;
  - `ppm.rs`: the plain PPM (`P3`) reader and writer, and texel lookup;
  - `ppm_laws.rs`: reading back what was written, and comment lines;
  - `raster.rs`: the row-by-row order in which pixels are computed;
  - `scene.rs`: scene names, the objects of each scene, output file names,
    numbers given on the command line.
- `app/` is the program: command line (clap), random particles (rand), the
  floating-point geometry and shading, and file input and output.
- `tests/` runs the library on concrete inputs.
