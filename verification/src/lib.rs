//! An interpreter for an eight-symbol tape language: a scanner that picks the
//! symbols out of program text, a parser that folds them into a tree of
//! counted operations and loops, and an executor that walks the tree over a
//! growable tape.

pub mod lang;
