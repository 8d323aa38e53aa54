//! Archive (carton) and network packet encodings for the eggine, with their byte formats stated and proved.
pub mod carton;
pub mod io;
pub mod network;
pub mod table;
