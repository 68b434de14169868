pub mod decimation;
pub mod detrend;
pub mod welch;
pub mod window;
