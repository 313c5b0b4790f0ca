//! A Minesweeper board engine: board generation with a safe first click,
//! flag bookkeeping and flood-fill reveal.

pub mod board;
pub mod flag;
pub mod cascade;
pub mod generate;
