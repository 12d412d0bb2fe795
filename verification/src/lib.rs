pub mod batch;
pub mod cli;
pub mod daemon;
pub mod discovery;
pub mod dispatch;
pub mod nextest;
pub mod order;
pub mod output;
pub mod progress;
pub mod remote;
pub mod run;
pub mod shell;
pub mod ssh;
pub mod status;
pub mod summary;
pub mod text;
