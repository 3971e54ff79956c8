pub mod ranged_vector;
pub mod thread_pool;
