//! Which index database a reader holds on to.

use vstd::prelude::*;

verus! {

/// The index database that a reader uses. A lease of a published generation
/// also knows the directory that is to be cleaned up once its last reader is
/// gone.
#[derive(Debug, Clone)]
pub struct IndexDbLease {
    pub path: String,
    pub generation_directory: Option<String>,
}

impl IndexDbLease {
    /// A lease of a database that nothing cleans up.
    pub fn acquire(path: String) -> (r: Self)
        ensures
            r.path == path,
            r.generation_directory is None,
    {
        IndexDbLease { path, generation_directory: None }
    }

    /// A lease of a published generation, in the directory that its path names;
    /// a path that names none is refused.
    pub fn acquire_default_generation(path: String, generation_directory: Option<String>) -> (r:
        Result<Self, String>)
        ensures
            match generation_directory {
                Some(directory) => r is Ok && r->Ok_0.path == path
                    && r->Ok_0.generation_directory == Some(directory),
                None => r is Err && r->Err_0@
                    == "default index path is not a canonical generation database: "@ + path@,
            },
    {
        match generation_directory {
            Some(directory) => Ok(
                IndexDbLease { path, generation_directory: Some(directory) },
            ),
            None => {
                let mut message =
                    "default index path is not a canonical generation database: ".to_owned();
                message.append(path.as_str());
                Err(message)
            },
        }
    }

    pub fn path(&self) -> (r: &str)
        ensures
            r@ == self.path@,
    {
        self.path.as_str()
    }
}

} // verus!
