pub mod gameset;
pub mod hands;
pub mod playerinput;
pub mod poker;
