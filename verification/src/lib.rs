//! A perpetuals exchange: order books matched by a verified engine, and the
//! decisions of the HTTP server around it.

pub mod id_map;
pub mod num_map;
pub mod order_book;
pub mod text;
pub mod mock_order;
pub mod engine;
pub mod middlewares;
pub mod handlers;
pub mod clock;
pub mod query;
