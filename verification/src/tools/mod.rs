pub mod mcp;
