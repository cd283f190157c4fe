pub mod dictionary;
pub mod mask;
pub mod stroke;
pub mod translation;
