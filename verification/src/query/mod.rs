pub mod close_order;
pub mod common;
pub mod create_user;
pub mod fetch_balance;
pub mod fetch_orders;
pub mod fetch_transactions;
pub mod find_user;
pub mod is_user_exist;
pub mod limit_order;
pub mod modify_order;
pub mod query;
pub mod withdraw_balance;
