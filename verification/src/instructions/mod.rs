pub mod deposit_colletral;
pub mod initalise_request_queue;
pub mod initialize_market;
pub mod initlaize_global_config;
pub mod liquidation;
pub mod place_order;
pub mod position_ins;
pub mod process_order;
pub mod reset_queues;
pub mod reset_slab;
pub mod setmark_price;
pub mod withdraw;
