[package]
name = "pm_cuda"
version = "0.1.0"
edition = "2021"
publish = false

[dependencies]
cudarc = { version = "0.19", default-features = false, features = ["std", "driver", "cublas", "nvrtc", "cuda-12080", "dynamic-loading"] }
thiserror = "2"
