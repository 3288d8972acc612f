pub mod transaction;
pub mod transaction_result;
