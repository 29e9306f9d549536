pub mod generics;
