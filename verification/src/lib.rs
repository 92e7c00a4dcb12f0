pub mod alignment;
pub mod begin;
pub mod bib_laws;
pub mod bib_model;
pub mod bib_reparse;
pub mod branch_laws;
pub mod cell_laws;
pub mod cells;
pub mod code_laws;
pub mod commands;
pub mod conditional;
pub mod context;
pub mod delimiter_laws;
pub mod display;
pub mod docs;
pub mod environments;
pub mod expl;
pub mod expl_facts;
pub mod expl_laws;
pub mod expl_paragraph;
pub mod fidelity;
pub mod finish;
pub mod flatten;
pub mod flow_laws;
pub mod format;
pub mod formula_laws;
pub mod frame_laws;
pub mod gap;
pub mod gate;
pub mod gate_laws;
pub mod grid_laws;
pub mod group_laws;
pub mod groups;
pub mod header_laws;
pub mod ink;
pub mod ink_laws;
pub mod ir;
pub mod label_laws;
pub mod laws;
pub mod lines;
pub mod list_laws;
pub mod lists;
pub mod lower;
pub mod math;
pub mod math_laws;
pub mod predicate_laws;
pub mod predicates;
pub mod prose;
pub mod regions;
pub mod role_laws;
pub mod roles;
pub mod script_laws;
pub mod segments;
pub mod sentence_laws;
pub mod settings;
pub mod signatures;
pub mod spine;
pub mod statements;
pub mod stream_laws;
pub mod syntax;
pub mod table;
pub mod text;
pub mod text_laws;
pub mod toggle_laws;
pub mod validity;
