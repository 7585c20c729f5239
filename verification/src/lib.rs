pub mod errors;
pub mod manejo_de_string;
pub mod texto;
pub mod leyes;
pub mod consultas;
