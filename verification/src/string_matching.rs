pub mod kmp;
