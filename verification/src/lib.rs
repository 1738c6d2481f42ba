//! Streaming JPEG entropy-layer decoder.
//!
//! A writer thread pushes the raw bytes of a JPEG file into a blocking byte
//! stream; the decoder pulls them out, parses the marker segments and decodes
//! every scan into quantized DCT coefficients, keeping the bytes that a later
//! bit-exact reconstruction of the file needs.
pub mod iostream;
pub mod jpeg_decoder;
pub mod thread_handoff;

pub use iostream::iostream;
pub use iostream::InputError;
pub use iostream::InputResult;
pub use iostream::InputStream;
pub use iostream::IoStream;
pub use iostream::OutputError;
pub use iostream::OutputResult;
pub use iostream::OutputStream;
pub use thread_handoff::BYTES_PER_HANDOFF;
pub use thread_handoff::BYTES_PER_HANDOFF_EXT;
pub use thread_handoff::MAX_N_CHANNEL;
