//! Template-based prompt assembly: `{{slot}}` placeholders in a base prompt
//! are filled by ordered injectors and, for what remains, from a context.

pub mod assemble;
pub mod injector;
pub mod slot;
pub mod text;
pub mod types;

pub use assemble::assemble;
pub use injector::{create_injector, InjectorError};
pub use types::{Context, ContextValue, Injector, InjectorFn, Rules};
