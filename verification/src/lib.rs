//! Verified core of an AArch64 emulator: a software IO-MMU and the
//! intermediate representation of its just-in-time compiler.

pub mod fault;
pub mod icache;
pub mod memory;
pub mod page_store;
pub mod memops;
pub mod memops_laws;
pub mod lock_plan;
pub mod page_table;
pub mod dirty;
pub mod cpu_fabric;
pub mod io_mmu;
pub mod lookup_cache;
pub mod access;
pub mod scalar;
pub mod exclusive_monitor;
pub mod exec_context;
pub mod inline_list;
pub mod object_manager;
pub mod laws;
pub mod isolation_laws;
pub mod mapping_laws;
pub mod guest_laws;
pub mod range_laws;
pub mod space_laws;
pub mod identity_laws;
pub mod parts_laws;
pub mod worker_laws;
pub mod object_laws;
pub mod flush_laws;
mod os_random;
pub mod memory_object;
pub mod transfer_laws;
pub mod ffi_support;
pub mod callback_laws;
pub mod state_laws;
pub mod ir;
pub mod lowering;
pub mod function_lowering;
pub mod lowering_laws;
pub mod block_laws;
pub mod lowered_layout;
pub mod function_laws;
pub mod refusal_laws;
pub mod compiler;
pub mod flag_laws;
