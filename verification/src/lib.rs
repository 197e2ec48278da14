pub mod my_image;
pub mod pixel;
pub mod qoi_decode;
pub mod qoi_encode;
pub mod qoi_laws;
pub mod qoi_spec;
