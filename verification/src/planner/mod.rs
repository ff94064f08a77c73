pub mod conflict;
pub mod sort_plan;
pub mod validator;

pub use conflict::generate_unique_destination;
pub use sort_plan::{
    compute_destination_path, detect_base_model, OpStatus, PlanAction, PlanTemplate,
    SortOperation, SortPlan, SpaceAnalysis, calculate_space_analysis,
};
pub use validator::{validate_plan_with, SourceFacts, ValidationResult};
