//! The base directories, worked out from the values of the environment
//! variables that define them.
use vstd::prelude::*;

use crate::text::{join_path, join_spec, split_list, split_spec};

verus! {

/// The system data directories used when `XDG_DATA_DIRS` is not set.
pub const DEFAULT_DATA_DIRS: &'static str = "/usr/local/share:/usr/share";

/// The pieces of a `:`-separated list of directories, as `str::split` gives them.
fn split_dirs(s: &str) -> (r: Vec<String>)
    ensures
        r@.map_values(|p: String| p@) == split_spec(s@, ':'),
{
    if s.unicode_len() == 0 {
        let mut r: Vec<String> = Vec::new();
        r.push(String::new());
        proof {
            assert(r@.map_values(|p: String| p@) =~= split_spec(s@, ':'));
        }
        r
    } else {
        split_list(s, ':')
    }
}

/// The system data directories from the value of `XDG_DATA_DIRS`: its pieces
/// between colons, or the default list where it is not set.
pub fn data_dirs_from(value: Option<&str>) -> (r: Vec<String>)
    ensures
        r@.map_values(|p: String| p@) == split_spec(
            match value {
                Some(v) => v@,
                None => DEFAULT_DATA_DIRS@,
            },
            ':',
        ),
{
    match value {
        Some(v) => split_dirs(v),
        None => split_dirs(DEFAULT_DATA_DIRS),
    }
}

/// A base directory from the value of its variable, else `<home>/<under_home>`.
pub fn dir_from(value: Option<&str>, home: &str, under_home: &str) -> (r: String)
    ensures
        r@ == match value {
            Some(v) => v@,
            None => join_spec(home@, under_home@),
        },
{
    match value {
        Some(v) => String::from_str(v),
        None => join_path(home, under_home),
    }
}

/// The directories that `base_directories` keeps where they exist: the pieces
/// of `XDG_DATA_DIRS`, then `XDG_DATA_HOME`, each only where its variable is set.
pub fn base_directory_candidates(data_dirs: Option<&str>, data_home: Option<&str>) -> (r: Vec<String>)
    ensures
        r@.map_values(|p: String| p@) == (match data_dirs {
            Some(v) => split_spec(v@, ':'),
            None => Seq::<Seq<char>>::empty(),
        }) + (match data_home {
            Some(h) => seq![h@],
            None => Seq::<Seq<char>>::empty(),
        }),
{
    let mut r: Vec<String> = match data_dirs {
        Some(v) => split_dirs(v),
        None => Vec::new(),
    };
    let ghost first = r@.map_values(|p: String| p@);
    proof {
        assert(first == match data_dirs {
            Some(v) => split_spec(v@, ':'),
            None => Seq::<Seq<char>>::empty(),
        }) by {
            if data_dirs is None {
                assert(first =~= Seq::<Seq<char>>::empty());
            }
        }
    }
    match data_home {
        Some(h) => {
            r.push(String::from_str(h));
            proof {
                assert(r@.map_values(|p: String| p@) =~= first + seq![h@]);
            }
        },
        None => {
            proof {
                assert(r@.map_values(|p: String| p@) =~= first + Seq::<Seq<char>>::empty());
            }
        },
    }
    r
}

} // verus!
