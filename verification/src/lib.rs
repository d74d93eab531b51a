pub mod shrewd;
