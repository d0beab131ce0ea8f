//! Where a shader's source comes from, and whether it changed since it was
//! last built.

use vstd::prelude::*;

verus! {

pub enum ShaderSource {
    /// Source held in memory.
    Inline {
        name: String,
        contents: String,
        headers: Vec<(String, String)>,
        defines: Vec<(String, String)>,
    },
    /// GLSL source read from files.
    Files {
        name: String,
        path: String,
        header_paths: Vec<(String, String)>,
        defines: Vec<(String, String)>,
    },
    /// WGSL source read from files.
    FilesWGSL {
        name: String,
        path: String,
        header_paths: Vec<(String, String)>,
    },
}

/// A recorded modification later than `last_update`.
pub open spec fn newer(t: Option<u64>, last_update: u64) -> bool {
    match t {
        Some(t) => t > last_update,
        None => false,
    }
}

/// Some watched file was modified after `last_update`.
pub open spec fn any_newer(times: Seq<Option<u64>>, last_update: u64) -> bool {
    exists|i: int| 0 <= i < times.len() && newer(#[trigger] times[i], last_update)
}

impl ShaderSource {
    /// Number of files this source is read from: the main file and its headers.
    pub open spec fn spec_watched_files(&self) -> nat {
        match self {
            ShaderSource::Inline { .. } => 0nat,
            ShaderSource::Files { header_paths, .. } => (header_paths.len() + 1) as nat,
            ShaderSource::FilesWGSL { header_paths, .. } => (header_paths.len() + 1) as nat,
        }
    }

    /// Whether the source must be rebuilt. `modification_times[i]` is the last recorded
    /// modification of the `i`-th watched file (the header files in order, then the main
    /// file), where one was recorded. Inline sources never change.
    pub fn needs_update(&self, last_update: u64, modification_times: &Vec<Option<u64>>) -> (r: bool)
        requires
            modification_times.len() == self.spec_watched_files(),
        ensures
            self is Inline ==> !r,
            !(self is Inline) ==> r == any_newer(modification_times@, last_update),
    {
        match self {
            ShaderSource::Inline { .. } => false,
            ShaderSource::Files { .. } => any_newer_than(modification_times, last_update),
            ShaderSource::FilesWGSL { .. } => any_newer_than(modification_times, last_update),
        }
    }
}

/// Whether some recorded modification is later than `last_update`.
fn any_newer_than(modification_times: &Vec<Option<u64>>, last_update: u64) -> (r: bool)
    ensures
        r == any_newer(modification_times@, last_update),
{
    let mut i: usize = 0;
    while i < modification_times.len()
        invariant
            0 <= i <= modification_times.len(),
            forall|j: int| 0 <= j < i ==> !newer(#[trigger] modification_times@[j], last_update),
        decreases modification_times.len() - i,
    {
        match modification_times[i] {
            Some(t) => {
                if t > last_update {
                    proof {
                        assert(newer(modification_times@[i as int], last_update));
                    }
                    return true;
                }
            },
            None => {},
        }
        i = i + 1;
    }
    false
}

} // verus!
