use vstd::prelude::*;
use crate::ast::FileNode;
use crate::codegen::{Context, GenCode};
use crate::names::{pascal_to_snake, snake_of_pascal};
use crate::text::{append, owned, replace_all, replace_text, texts};

verus! {

/// A file to write: its name within the output directory, and its text.
#[derive(Debug, PartialEq, Eq)]
pub struct GeneratedFile {
    pub name: String,
    pub text: String,
}

pub open spec fn no_override() -> Context {
    Context { override_name: None }
}

/// The client files: the API client, with the endpoint put in place of
/// `{{API_ENDPOINT}}`, then `<Route>.swift` for each route, in order.
pub fn gen_swift_client(api_client_text: &str, endpoint: &str, routes: &Vec<FileNode>) -> (r: Vec<
    GeneratedFile,
>)
    ensures
        r@.len() == routes@.len() + 1,
        r@[0].name@ == "Api.swift"@,
        r@[0].text@ == replace_all(api_client_text@, "{{API_ENDPOINT}}"@, endpoint@),
        forall|i: int|
            0 <= i < routes@.len() ==> #[trigger] r@[i + 1].name@ == routes@[i].name@ + ".swift"@
                && r@[i + 1].text@ == routes@[i].client_text(no_override()),
{
    let mut files: Vec<GeneratedFile> = Vec::new();
    files.push(
        GeneratedFile {
            name: owned("Api.swift"),
            text: replace_text(api_client_text, "{{API_ENDPOINT}}", endpoint),
        },
    );
    let ctx = Context { override_name: None };
    let mut i: usize = 0;
    while i < routes.len()
        invariant
            i <= routes@.len(),
            ctx == no_override(),
            files@.len() == i + 1,
            files@[0].name@ == "Api.swift"@,
            files@[0].text@ == replace_all(api_client_text@, "{{API_ENDPOINT}}"@, endpoint@),
            forall|k: int|
                0 <= k < i ==> #[trigger] files@[k + 1].name@ == routes@[k].name@ + ".swift"@
                    && files@[k + 1].text@ == routes@[k].client_text(no_override()),
        decreases routes.len() - i,
    {
        let route = &routes[i];
        let mut name = route.name.clone();
        append(&mut name, ".swift");
        files.push(GeneratedFile { name, text: route.swift_client_code(&ctx) });
        i = i + 1;
    }
    files
}

/// The lower-case form of a text, as Unicode defines it.
pub uninterp spec fn lowercase_of(s: Seq<char>) -> Seq<char>;

/// Relies on str::to_lowercase: the lower-case form of a text depends on its
/// characters alone.
#[verifier::external_body]
fn lowercase(s: &str) -> (r: String)
    ensures
        r@ == lowercase_of(s@),
{
    s.to_lowercase()
}

/// `pub mod <route>;` for each route, one per line, the route's name in
/// lower-case snake case.
pub open spec fn mod_lines(routes: Seq<FileNode>) -> Seq<char>
    decreases routes.len(),
{
    if routes.len() == 0 {
        Seq::empty()
    } else if routes.len() == 1 {
        "pub mod "@ + lowercase_of(snake_of_pascal(routes[0].name@)) + ";"@
    } else {
        mod_lines(routes.drop_last()) + "\n"@ + "pub mod "@ + lowercase_of(
            snake_of_pascal(routes.last().name@),
        ) + ";"@
    }
}

/// The server files: `mod.rs`, declaring a module per route and holding the
/// response types, then `<route>.rs` for each route, in order.
pub fn gen_rust_server(response_types_text: &str, routes: &Vec<FileNode>) -> (r: Vec<
    GeneratedFile,
>)
    ensures
        r@.len() == routes@.len() + 1,
        r@[0].name@ == "mod.rs"@,
        r@[0].text@ == mod_lines(routes@) + "\n\n"@ + response_types_text@,
        forall|i: int|
            #![trigger r@[i + 1]]
            0 <= i < routes@.len() ==> r@[i + 1].name@ == snake_of_pascal(
                routes@[i].name@,
            ) + ".rs"@ && r@[i + 1].text@ == routes@[i].server_text(no_override()),
{
    let mut mods = String::new();
    let mut i: usize = 0;
    while i < routes.len()
        invariant
            i <= routes@.len(),
            mods@ == mod_lines(routes@.subrange(0, i as int)),
        decreases routes.len() - i,
    {
        if i > 0 {
            append(&mut mods, "\n");
        }
        append(&mut mods, "pub mod ");
        append(&mut mods, lowercase(pascal_to_snake(routes[i].name.as_str()).as_str()).as_str());
        append(&mut mods, ";");
        proof {
            let sub = routes@.subrange(0, i + 1);
            assert(sub.drop_last() =~= routes@.subrange(0, i as int));
            assert(mods@ =~= mod_lines(sub));
        }
        i = i + 1;
    }
    assert(routes@.subrange(0, routes@.len() as int) =~= routes@);
    append(&mut mods, "\n\n");
    append(&mut mods, response_types_text);
    let mut files: Vec<GeneratedFile> = Vec::new();
    files.push(GeneratedFile { name: owned("mod.rs"), text: mods });
    let ctx = Context { override_name: None };
    let mut j: usize = 0;
    while j < routes.len()
        invariant
            j <= routes@.len(),
            ctx == no_override(),
            files@.len() == j + 1,
            files@[0].name@ == "mod.rs"@,
            files@[0].text@ == mod_lines(routes@) + "\n\n"@ + response_types_text@,
            forall|k: int|
                #![trigger files@[k + 1]]
                0 <= k < j ==> files@[k + 1].name@ == snake_of_pascal(routes@[k].name@)
                    + ".rs"@ && files@[k + 1].text@ == routes@[k].server_text(no_override()),
        decreases routes.len() - j,
    {
        let route = &routes[j];
        let mut name = pascal_to_snake(route.name.as_str());
        append(&mut name, ".rs");
        files.push(GeneratedFile { name, text: route.rust_server_code(&ctx) });
        j = j + 1;
    }
    files
}

} // verus!
