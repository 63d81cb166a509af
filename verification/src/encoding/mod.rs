pub mod bitstream;
