pub mod bits;
pub mod fft;
pub mod numeric;
pub mod utils;
