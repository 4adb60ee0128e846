pub mod typescript;
