//! What the pages of the host are filled with.

pub mod sign_up_in_out;
