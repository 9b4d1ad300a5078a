//! Verified core of a USGS streamflow toolkit: site-id normalisation, the
//! partitioned Parquet lake layout, request windowing, row de-duplication,
//! content-addressed dataset manifests and the publishing bookkeeping built
//! on them.
pub mod text;
pub mod sort;
pub mod digest;
pub mod manifest;
pub mod rows;
pub mod dates;
pub mod cli;
pub mod lake;
pub mod usgs;
pub mod types;
pub mod publish;
pub mod chart;
