pub mod engine_utils;
pub mod keys;
pub mod make_order_id;
