pub mod machine;
