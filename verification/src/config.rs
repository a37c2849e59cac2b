//! The settings of a project.

use crate::text;
use vstd::prelude::*;
use vstd::string::*;

verus! {

/// What the configuration file of a project says.
pub struct Config {
    /// Files that have to have an owner.
    pub owned_globs: Vec<String>,
    /// Files among these that need none.
    pub unowned_globs: Vec<String>,
    pub ruby_package_paths: Vec<String>,
    pub javascript_package_paths: Vec<String>,
    /// Where the team files lie.
    pub team_file_glob: Vec<String>,
    pub vendored_gems_path: String,
    pub cache_directory: String,
    pub ignore_dirs: Vec<String>,
    pub executable_name: String,
    /// The directory of the CODEOWNERS file.
    pub codeowners_path: String,
}

/// A [`Config`] as a value.
#[verifier::ext_equal]
pub struct ConfigView {
    pub owned_globs: Seq<Seq<char>>,
    pub unowned_globs: Seq<Seq<char>>,
    pub ruby_package_paths: Seq<Seq<char>>,
    pub javascript_package_paths: Seq<Seq<char>>,
    pub team_file_glob: Seq<Seq<char>>,
    pub vendored_gems_path: Seq<char>,
    pub cache_directory: Seq<char>,
    pub ignore_dirs: Seq<Seq<char>>,
    pub executable_name: Seq<char>,
    pub codeowners_path: Seq<char>,
}

impl View for Config {
    type V = ConfigView;

    open spec fn view(&self) -> ConfigView {
        ConfigView {
            owned_globs: text::texts(self.owned_globs@),
            unowned_globs: text::texts(self.unowned_globs@),
            ruby_package_paths: text::texts(self.ruby_package_paths@),
            javascript_package_paths: text::texts(self.javascript_package_paths@),
            team_file_glob: text::texts(self.team_file_glob@),
            vendored_gems_path: self.vendored_gems_path@,
            cache_directory: self.cache_directory@,
            ignore_dirs: text::texts(self.ignore_dirs@),
            executable_name: self.executable_name@,
            codeowners_path: self.codeowners_path@,
        }
    }
}

} // verus!
