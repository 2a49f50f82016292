//! Bytecode packaging: accumulates the bytes emitted by a sequence of
//! virtual-machine instructions into per-instruction batches, flattens the
//! batches into an upload-ready stream, and persists the batch list as a
//! hex/JSON text payload that reloads to the identical state.

pub mod hexcode;
pub mod payload;
pub mod upload;
