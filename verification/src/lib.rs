pub mod tcp;
pub mod bits;
pub mod padding;
pub mod encoding;
pub mod fields;
pub mod checksum;
pub mod physical;
pub mod redundancy;
pub mod ack;
pub mod ring_buffer;
pub mod ip;
pub mod tcp_layer;
pub mod ack_machine;
pub mod erasure;
pub mod descriptor;
pub mod nat_server;
pub mod vec_buffer;
pub mod bit_text;
pub mod sample_data;
pub mod udp;
