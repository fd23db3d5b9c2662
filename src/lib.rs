pub mod accrual;
pub mod collector;
pub mod manager;
pub mod timeline;

pub use accrual::{Account, Subscription};
pub use collector::Collector;
pub use manager::{BillingError, SubscriptionManager};
pub use timeline::SkipList;
