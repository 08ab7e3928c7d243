pub mod irqlock;
pub mod spinlock;
