//! The texts that generating a resource writes: the resource's own file, its
//! re-export, and its declaration in the routing file.

use vstd::prelude::*;
use vstd::string::StringExecFns;

verus! {

/// Path of the file that lists the resource modules.
pub const RESOURCES_MOD_PATH: &'static str = "src/resources/mod.rs";

/// Path of the routing file.
pub const ROUTING_PATH: &'static str = "src/routing.rs";

/// Source of the file that declares resource `name`.
pub open spec fn resource_file_text(name: Seq<char>) -> Seq<char> {
    "use cargonauts::*;\n\npub struct "@ + name + " {\n}\n\nimpl Resource for "@ + name
        + " {\n    type Identifier = (); // TODO: Select the identifier type for this resource\n}\n"@
}

/// Path of the file of the resource whose module is `module`.
pub open spec fn resource_path_text(module: Seq<char>) -> Seq<char> {
    "src/resources/"@ + module + ".rs"@
}

/// Lines that declare module `module` and re-export its type `name`.
pub open spec fn reexport_text(module: Seq<char>, name: Seq<char>) -> Seq<char> {
    "\nmod "@ + module + ";\npub use self::"@ + module + "::"@ + name + ";\n"@
}

/// First line of the routing entry of resource `name`.
pub open spec fn entry_open_text(name: Seq<char>) -> Seq<char> {
    "    resource "@ + name + " {"@
}

/// Last line of a routing entry.
pub open spec fn entry_close_text() -> Seq<char> {
    "    }"@
}

/// Writes the source of the file that declares resource `name`: an empty
/// struct of that name and its `Resource` impl.
pub fn resource_file(name: &str) -> (source: String)
    ensures
        source@ == resource_file_text(name@),
{
    let mut source = String::from_str("use cargonauts::*;\n\npub struct ");
    source.append(name);
    source.append(" {\n}\n\nimpl Resource for ");
    source.append(name);
    source.append(
        " {\n    type Identifier = (); // TODO: Select the identifier type for this resource\n}\n",
    );
    source
}

/// Names the file of the resource whose module is `module`.
pub fn resource_path(module: &str) -> (path: String)
    ensures
        path@ == resource_path_text(module@),
{
    let mut path = String::from_str("src/resources/");
    path.append(module);
    path.append(".rs");
    path
}

/// Writes what the resources' `mod.rs` gains: the module's declaration and
/// the re-export of its type, after an empty line.
pub fn reexport(module: &str, name: &str) -> (entry: String)
    ensures
        entry@ == reexport_text(module@, name@),
{
    let mut entry = String::from_str("\nmod ");
    entry.append(module);
    entry.append(";\npub use self::");
    entry.append(module);
    entry.append("::");
    entry.append(name);
    entry.append(";\n");
    entry
}

/// Writes the first line of the routing entry of resource `name`.
pub fn entry_open(name: &str) -> (line: String)
    ensures
        line@ == entry_open_text(name@),
{
    let mut line = String::from_str("    resource ");
    line.append(name);
    line.append(" {");
    line
}

} // verus!
