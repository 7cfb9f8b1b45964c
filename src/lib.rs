//! Core of a compiler backend that lowers annotated script functions into
//! callable entry points: the intermediate type graph, its deduplication and
//! inline-type discovery, value marshalling, the error taxonomy and the
//! per-call trampoline.
pub mod errors;
pub mod methods;
pub mod stable_map;
pub mod type_node;
pub mod trampoline;
pub mod values;
