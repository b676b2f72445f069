pub mod custom;
pub mod parquet;
