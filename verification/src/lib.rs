//! Electrolysis keeps Xcode `project.pbxproj` files clean, deterministic and
//! merge-safe.

pub mod alphabet_laws;
pub mod calendar;
pub mod cli;
pub mod closure_laws;
pub mod config;
pub mod conflict_laws;
pub mod difference_laws;
pub mod drop_laws;
pub mod error;
pub mod filesystem;
pub mod follow_laws;
pub mod identity_laws;
pub mod index_laws;
pub mod kept_laws;
pub mod left_text_laws;
pub mod level;
pub mod level_section_laws;
pub mod level_sorted_laws;
pub mod level_sound_laws;
pub mod lexing;
pub mod line_reading;
pub mod link_laws;
pub mod listing;
pub mod logger;
pub mod main_group_laws;
pub mod map_laws;
pub mod mapper;
pub mod mapper_laws;
pub mod merge_driver;
pub mod merge_laws;
pub mod naming_laws;
pub mod order;
pub mod parser;
pub mod paths;
pub mod pass_laws;
pub mod pattern;
pub mod permutation_laws;
pub mod pipeline;
pub mod pipeline_laws;
pub mod place_laws;
pub mod plist;
pub mod project_facts;
pub mod reading;
pub mod renamed_facts;
pub mod renaming_laws;
pub mod repair_laws;
pub mod repeat_laws;
pub mod report;
pub mod resort_laws;
pub mod resort_section_laws;
pub mod rewritten_laws;
pub mod sanitizer;
pub mod sanitizer_laws;
pub mod scheme_run_laws;
pub mod scheme_updater;
pub mod scheme_laws;
pub mod second_run_laws;
pub mod settle_laws;
pub mod settled_laws;
pub mod shape;
pub mod sorted_facts;
pub mod sorted_laws;
pub mod sorter;
pub mod sorter_laws;
pub mod soundness_laws;
pub mod table;
pub mod text;
pub mod text_laws;
pub mod thinning_laws;
pub mod uniquifier;
pub mod uniquifier_laws;
pub mod warning_laws;
pub mod watch_laws;
pub mod written_laws;
