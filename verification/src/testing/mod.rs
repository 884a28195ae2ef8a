pub mod perft;
pub mod perft_debugger;
