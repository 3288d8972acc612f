pub mod dispatch;
pub mod olc_query;
pub mod rand_query;
pub mod time_matcher;
