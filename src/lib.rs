//! Escape-time field of the Mandelbrot set: the decision rule that turns the
//! orbit of one sample into an iteration count, and the reassembly of rows
//! computed out of order into a field in raster order.
pub mod escape;
pub mod field;
