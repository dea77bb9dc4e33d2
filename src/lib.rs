pub mod application_services;
pub mod domain_models;
pub mod domain_services;
