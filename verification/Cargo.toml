[package]
name = "peer_crawler"
version = "0.1.0"
edition = "2021"
publish = false

[dependencies]
crossbeam-queue = "=0.3.14"
crossbeam-utils = "=0.8.23"
crossbeam-channel = "=0.5.17"
log = "=0.4.34"
env_logger = "=0.11.11"
chrono = "=0.4.45"
grin_core = "=5.5.0"
grin_p2p = "=5.5.0"
grin_chain = "=5.5.0"
grin_util = "=5.5.0"
structopt = "=0.3.26"
