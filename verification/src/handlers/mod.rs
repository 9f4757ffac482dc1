pub mod deposit;
pub mod reply;
pub mod signin;
pub mod signup;
pub mod withdraw;
pub mod ws;
pub mod orders;
