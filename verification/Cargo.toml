[package]
name = "rattler"
version = "0.1.0"
edition = "2021"
publish = false

[dependencies]
anyhow = "1"
dirs = "5"
futures = "0.3"
pyo3 = { version = "0.19", features = ["abi3-py38", "extension-module"] }
pyo3-asyncio = { version = "0.19", features = ["tokio-runtime"] }
rattler_conda_types = "0.11"
rattler_digest = "0.11"
rattler_networking = "0.11"
rattler_package_streaming = "0.11"
rattler_repodata_gateway = "0.11"
reqwest = "0.11"
thiserror = "1"
tokio = { version = "1", features = ["rt-multi-thread", "fs"] }
url = "2"
