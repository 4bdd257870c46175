//! Generating a resource: everything that is to be written, computed from
//! the resource's name and the routing file's present text.

use crate::edit::{add_route, routed};
use crate::locate::EditError;
use crate::names::{camel_case, snake_case, ResourceNames};
use crate::template::{
    reexport, reexport_text, resource_file, resource_file_text, resource_path, resource_path_text,
};
use vstd::prelude::*;

verus! {

/// What generating a resource writes.
pub struct Generated {
    /// Path of the resource's own file.
    pub path: String,
    /// Text of the resource's own file.
    pub source: String,
    /// Text to append to the file that lists the resource modules.
    pub reexport: String,
    /// New text of the whole routing file.
    pub routing: String,
}

impl Generated {
    /// These are the files of the resource whose module is `snake` and whose
    /// type is `camel`, for a routing file that read `routing`.
    pub open spec fn is_for(&self, snake: Seq<char>, camel: Seq<char>, routing: Seq<char>) -> bool {
        &&& self.path@ == resource_path_text(snake)
        &&& self.source@ == resource_file_text(camel)
        &&& self.reexport@ == reexport_text(snake, camel)
        &&& routed(routing, camel) == Some(self.routing@)
    }
}

/// Prepares the files of the resource that `names` spells, for a routing
/// file that reads `routing`. A routing text without a block is refused,
/// and then nothing is prepared.
pub fn generate_named(names: &ResourceNames, routing: &str) -> (made: Result<Generated, EditError>)
    ensures
        match made {
            Ok(files) => files.is_for(names.snake@, names.camel@, routing@),
            Err(e) => e == EditError::MissingBlock && routed(routing@, names.camel@) is None,
        },
{
    match add_route(routing, names.camel.as_str()) {
        Ok(edited) => Ok(
            Generated {
                path: resource_path(names.snake.as_str()),
                source: resource_file(names.camel.as_str()),
                reexport: reexport(names.snake.as_str(), names.camel.as_str()),
                routing: edited,
            },
        ),
        Err(e) => Err(e),
    }
}

/// Prepares the files of a new resource called `name`, for a routing file
/// that reads `routing`: the module is named in snake case, the type in
/// camel case. A routing text without a block is refused, and then nothing
/// is prepared.
pub fn generate_resource(name: &str, routing: &str) -> (made: Result<Generated, EditError>)
    ensures
        match made {
            Ok(files) => files.is_for(snake_case(name@), camel_case(name@), routing@),
            Err(e) => e == EditError::MissingBlock && routed(routing@, camel_case(name@)) is None,
        },
{
    let names = ResourceNames::of(name);
    generate_named(&names, routing)
}

} // verus!
