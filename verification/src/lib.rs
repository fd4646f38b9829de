//! A ray tracer's verified core: the plain PPM image format (reader, writer and
//! the laws that tie them), the raster order of rendered pixels, and the choices
//! that turn a scene name into the objects to render and the file to write.
pub mod lines;
pub mod ppm;
pub mod pixel_laws;
pub mod ppm_laws;
pub mod raster;
pub mod scene;
pub mod text;
pub mod text_laws;
