pub mod noise;
pub mod profile;
