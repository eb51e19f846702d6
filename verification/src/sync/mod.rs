//! Spin locks that hand out tickets and serve them in order.

pub mod spinlock;
pub mod ticket_lock;
