pub mod alphabeta;
pub mod evaluate;
pub mod gamehistory;
pub mod hashtable;
pub mod timer;
pub mod transposition;
pub mod moveorder;
pub mod see;
pub mod searchcontrol;
