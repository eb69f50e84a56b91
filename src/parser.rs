pub mod default_node_parser;
pub mod node_parser_trait;
