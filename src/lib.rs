/// Read and write permits over paths of a trie, refused where they overlap.
pub mod authority;
/// CSV rows as compounds of symbols, rewritten into a space.
pub mod csv;
/// The byte encoding of expressions, its reading, and the round trip.
pub mod encoding;
/// A store of structured expressions answering queries by symbol, arity and shape.
pub mod expr_query;
/// Rows of graph data as tagged tuples of symbols.
pub mod graph;
/// JSON values as one path per leaf.
pub mod json;
/// Referential matching of patterns and instantiation of templates.
pub mod matching;
/// Parsing of textual patterns and unification with bindings and constraints.
pub mod pattern_matching;
/// A space's paths written one after another and read back.
pub mod persist;
/// Concatenations of one path from each of several spaces, in order.
pub mod product;
/// Patterns compiled into stack programs of match operations.
pub mod program;
/// The space: the set of encoded paths, its queries and rewrites.
pub mod space;
/// The symbol table: byte strings to stable handles and back.
pub mod symbols;
/// Expressions as text, and dumps of a space.
pub mod text;
/// An ordered map from byte strings to values.
pub mod trie;
/// Cursors into encoded expressions, byte masks and path helpers.
pub mod zipper;
