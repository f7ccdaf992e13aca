//! Hybrid Inlining: a compositional, context-sensitive pointer analysis,
//! derived as the least model of a set of rules over a program's facts.
pub mod access_path;
pub mod analysis;
pub mod arranging;
pub mod asking;
pub mod calls;
pub mod cells;
pub mod chains;
pub mod cir;
pub mod clauses;
pub mod climbing;
pub mod codes;
pub mod computing;
pub mod convert;
pub mod ctadl;
pub mod cutting;
pub mod datalog;
pub mod derived;
pub mod dispatch;
pub mod engine;
pub mod example;
pub mod facts;
pub mod families;
pub mod figure5;
pub mod fire;
pub mod ground;
pub mod growing;
pub mod hierarchy;
pub mod importing;
pub mod inline;
pub mod ir;
pub mod laws;
pub mod ledger;
pub mod levels;
pub mod links;
pub mod lower;
pub mod lowering;
pub mod mapping;
pub mod marks;
pub mod meaning;
pub mod mem;
pub mod merging;
pub mod ops;
pub mod order;
pub mod path_bound;
pub mod placeholders;
pub mod query;
pub mod reading;
pub mod report;
pub mod restrict;
pub mod roster;
pub mod resume;
pub mod rows;
pub mod rules;
pub mod shapes;
pub mod sheet;
pub mod sites;
pub mod solve;
pub mod spelling;
pub mod startup;
pub mod state;
pub mod syntax;
pub mod table;
pub mod text;
pub mod tuples;
pub mod wellformed;
pub mod writing;
