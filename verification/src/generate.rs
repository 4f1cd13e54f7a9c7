//! Choice of skeleton-test template. Rendering a template is plain
//! data-to-text substitution done by an outside engine in the application
//! layer; the library only decides which template file a target language
//! uses.

use vstd::prelude::*;

verus! {

/// The target languages a skeleton test can be generated for.
#[derive(Clone, Copy, Debug)]
pub enum SupportedTestTemplate {
    Rust,
    Python,
}

impl SupportedTestTemplate {
    /// The name of the template file that renders a skeleton test for this
    /// target language.
    pub fn get_template_filename(self) -> (r: String)
        ensures
            self is Rust ==> r@ == "rust_test.rs"@,
            self is Python ==> r@ == "py_test.py"@,
    {
        match self {
            SupportedTestTemplate::Rust => "rust_test.rs".to_owned(),
            SupportedTestTemplate::Python => "py_test.py".to_owned(),
        }
    }
}

} // verus!
