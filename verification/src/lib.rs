//! Plans and carries out a one-way folder synchronisation.
pub mod answer;
pub mod calendar;
pub mod display;
pub mod display_laws;
pub mod execute;
pub mod execute_laws;
pub mod index;
pub mod paint;
pub mod paths;
pub mod plan;
pub mod plan_laws;
pub mod replay;
pub mod size;
pub mod text;
pub mod text_laws;
pub mod timestamp;
