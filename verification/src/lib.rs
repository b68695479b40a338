//! A minimal template formatter.
//!
//! A [`PromptTemplate`] holds a template string, a list of declared variable
//! names, and a [`TemplateFormat`] selecting the placeholder token shape
//! (`{name}` or `{{name}}`). Its [`Prompt::format`] operation substitutes the
//! supplied values for every occurrence of their placeholder tokens in a
//! single pass over the template, failing with
//! [`FormatError::MissingVariable`] when a declared variable is absent from
//! the input. [`PromptArgs`] builds the name-to-value mappings that `format`
//! consumes.

pub mod args;
pub mod model;
pub mod template;
pub mod text;

pub use args::PromptArgs;
pub use model::TemplateFormat;
pub use template::FormatError;
pub use template::Prompt;
pub use template::PromptTemplate;
