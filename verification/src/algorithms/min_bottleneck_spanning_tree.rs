pub mod camerini;
