//! Per-thread memory pools with windowed back-pressure, and a WebSocket
//! frame codec over growable byte buffers.
pub mod frame;
pub mod pool;
pub mod proto;
pub mod waiters;
