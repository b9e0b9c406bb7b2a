//! A self-quizzing engine: question files are parsed into questions, grouped
//! by file name, merged by question text, and drilled in shuffled rounds with
//! scoring, hardest-subset selection and answer validation.

pub mod text;
pub mod question;
pub mod practice;
pub mod parser;
pub mod groups;
pub mod session;
