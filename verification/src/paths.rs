//! Where sessions and the thumbnail cache live: the platform's directories
//! for the application, or a file beside the program when there are none.
use vstd::prelude::*;
use directories::ProjectDirs;
use crate::pathname::{join, join_str};

verus! {

#[verifier::external_type_specification]
#[verifier::external_body]
pub struct ExProjectDirs(ProjectDirs);

/// `ProjectDirs::from("", "", application)`: the platform's directories for
/// the application, or `None` when no home directory can be found. What it
/// returns depends on the environment, so nothing is claimed of it.
#[verifier::external_body]
fn project_dirs(application: &str) -> Option<ProjectDirs> {
    ProjectDirs::from("", "", application)
}

/// `ProjectDirs::config_dir`, as a string (lossily, for a path that is not
/// valid Unicode). Nothing is claimed of the value.
#[verifier::external_body]
fn config_dir_of(dirs: &ProjectDirs) -> String {
    dirs.config_dir().to_string_lossy().into_owned()
}

/// `ProjectDirs::cache_dir`, as a string (lossily, for a path that is not
/// valid Unicode). Nothing is claimed of the value.
#[verifier::external_body]
fn cache_dir_of(dirs: &ProjectDirs) -> String {
    dirs.cache_dir().to_string_lossy().into_owned()
}

/// The session record: `sessions.json` in the application's config folder,
/// or `pickture-sessions.json` beside the program when there is none.
pub fn sessions_file() -> (r: String)
    ensures
        r@ == "pickture-sessions.json"@ || exists|dir: Seq<char>| r@ == #[trigger] join(dir, "sessions.json"@),
{
    match project_dirs("Pickture") {
        Some(d) => {
            let dir = config_dir_of(&d);
            let r = join_str(dir.as_str(), "sessions.json");
            assert(r@ == join(dir@, "sessions.json"@));
            r
        },
        None => "pickture-sessions.json".to_owned(),
    }
}

/// The thumbnail cache: `thumbnails` in the application's cache folder.
/// Safe to delete at any time; it rebuilds on demand.
pub fn thumbnail_cache_dir() -> (r: Option<String>)
    ensures
        r matches Some(p) ==> exists|dir: Seq<char>| p@ == #[trigger] join(dir, "thumbnails"@),
{
    match project_dirs("Pickture") {
        Some(d) => {
            let dir = cache_dir_of(&d);
            let r = join_str(dir.as_str(), "thumbnails");
            assert(r@ == join(dir@, "thumbnails"@));
            Some(r)
        },
        None => None,
    }
}

} // verus!
