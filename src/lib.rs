//! A minimal software raytracer: a pixel buffer kept at the size of a display
//! surface, and a renderer that casts one camera ray per pixel at a sphere.
pub mod geometry;
pub mod settings;
pub mod texture;
