//! Greatest common divisor of a list of positive 64-bit integers, with the
//! token reader and the reply texts that the command line and the web form use.
pub mod decimal;
pub mod numeric;
pub mod reply;

pub use decimal::{parse_number, parse_numbers, render_number};
pub use numeric::{compute_gcd, gcd};
pub use reply::{
    cli_reply, form_numbers, form_reply, render_list, FormReply, STATUS_BAD_REQUEST, STATUS_OK,
};
