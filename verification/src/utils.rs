pub mod loaders;
