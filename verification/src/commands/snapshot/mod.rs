pub mod methods;
