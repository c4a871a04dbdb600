pub mod jsonl;
pub mod num;
pub mod poller;
pub mod record;
pub mod series;
pub mod sortedmap;
pub mod text;
