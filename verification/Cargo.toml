[package]
name = "tfidf"
version = "0.1.0"
edition = "2021"
publish = false

[dependencies]
porter-stemmer = "*"
