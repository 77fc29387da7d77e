pub mod bitmap;
pub mod qr;
pub mod text;
