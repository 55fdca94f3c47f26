pub mod functions;
