pub mod interval;
