//! Verified core of the AI_devs exercise solutions: text processing, JSON
//! inspection, candidate selection and request/response decisions.

pub mod text;
pub mod json;
pub mod openai_wrapper;
pub mod llm_payload_service;
pub mod csv_service;
pub mod suspect_selection;
pub mod job_tagging;
pub mod docs_crawler;
pub mod declaration;
pub mod railway;
pub mod package_proxy;
pub mod findhim;
pub mod aidevs_verification;
pub mod launcher;
