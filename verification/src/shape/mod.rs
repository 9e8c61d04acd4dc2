pub mod encoding;
pub mod layout;
pub mod bitstream;
pub mod text;
pub mod diff;
pub mod encode;
pub mod decode;
pub mod morphology;
pub mod laws;
pub mod sampling_laws;
pub mod translation_laws;
