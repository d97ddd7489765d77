pub mod fib_heap;
pub mod heap_ops;
pub mod tree;
