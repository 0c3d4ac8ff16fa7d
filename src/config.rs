use vstd::prelude::*;
use crate::text::same_text;

verus! {

/// A language that code is generated in.
#[derive(PartialEq, Eq, Debug, Clone, Copy)]
pub enum Language {
    Rust,
    Swift,
}

/// The language that a configuration names: `rust` or `swift`.
pub fn language_from_name(name: &str) -> (r: Option<Language>)
    ensures
        name@ == "rust"@ ==> r == Some(Language::Rust),
        name@ == "swift"@ ==> r == Some(Language::Swift),
        name@ != "rust"@ && name@ != "swift"@ ==> r is None,
{
    proof {
        reveal_strlit("rust");
        reveal_strlit("swift");
        assert("rust"@[0] != "swift"@[0]);
    }
    if same_text(name, "rust") {
        Some(Language::Rust)
    } else if same_text(name, "swift") {
        Some(Language::Swift)
    } else {
        None
    }
}

} // verus!
