//! Rainbow tables: reduction, chains, the table file and the cracker.
pub mod batch;
pub mod chain;
pub mod codec;
pub mod crack;
pub mod dump;
pub mod error;
pub mod generate;
pub mod index;
pub mod laws;
pub mod reduce;

pub use batch::parse_hash_file;
pub use chain::{build_chain, build_chains, compute_hash_rainbow, Chain, ChainRule, ChainView};
pub use codec::{encode_table, parse_header, parse_rainbow, write_header, Header, RainbowTable, TableView};
pub use crack::{check_algorithms, crack, gather_results, regenerate_chain, result_line, CrackResult, CrackView, Cracker, HashBatch, Lookup};
pub use dump::dump_rainbow_table;
pub use error::{RainbowError, RainbowFault};
pub use generate::{check_passwords, generate_rainbow_table};
pub use index::EndIndex;
pub use reduce::reduce;
