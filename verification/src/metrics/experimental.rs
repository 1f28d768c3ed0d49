//! Experimental, non-standardized models.

pub mod quantum_proxy_v3;
