pub mod args;
pub mod check;
pub mod csv;
pub mod dates;
pub mod datefmt;
pub mod diff;
pub mod edit;
pub mod escape;
pub mod evalplan;
pub mod find;
pub mod flatten;
pub mod funcs;
pub mod join;
pub mod lexer;
pub mod money;
pub mod num;
pub mod reshape;
pub mod rowops;
pub mod rows;
pub mod shuffle;
pub mod runs;
pub mod split;
pub mod sql;
pub mod summary;
pub mod parser;
pub mod pattern;
pub mod printf;
pub mod sortspec;
pub mod splitting;
pub mod table;
pub mod text;
pub mod tpl;
pub mod validate;
pub mod xml;
pub mod xmlin;
