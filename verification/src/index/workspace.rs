//! Workspace description: the root folder, the language version tag, and
//! the project main files named by the workspace descriptor.
//!
//! The descriptor is an INI-like file: a `[Properties]` section carrying
//! a `Version` key, and a `[Projects]` section whose values name each
//! project's main file, resolved under `<root>/AppSrc`.  Reading the
//! descriptor file from disk is a collaborator's job; this module parses
//! its text.

use vstd::prelude::*;

verus! {

/// The value of `key` in `section` of the INI text, if the text parses
/// and carries it.
pub uninterp spec fn ini_value_of(text: Seq<char>, section: Seq<char>, key: Seq<char>) -> Option<
    Seq<char>,
>;

/// The values of `section` of the INI text, in order; empty if the text
/// does not parse or has no such section.
pub uninterp spec fn ini_section_values_of(text: Seq<char>, section: Seq<char>) -> Seq<Seq<char>>;

/// Relies on ini::Ini::load_from_str, Ini::section and Properties::get:
/// the value under a key of a section.  The result depends on the three
/// strings alone.
#[verifier::external_body]
fn ini_value(text: &str, section: &str, key: &str) -> (r: Option<String>)
    ensures
        r.deep_view() == ini_value_of(text@, section@, key@),
{
    let parsed = match ini::Ini::load_from_str(text) {
        Ok(i) => i,
        Err(_) => {
            return None;
        },
    };
    match parsed.section(Some(section)) {
        Some(props) => props.get(key).map(|v| v.to_string()),
        None => None,
    }
}

/// Relies on ini::Ini::load_from_str, Ini::section and Properties::iter:
/// the values of a section, in file order.  The result depends on the
/// two strings alone.
#[verifier::external_body]
fn ini_section_values(text: &str, section: &str) -> (r: Vec<String>)
    ensures
        r.deep_view() == ini_section_values_of(text@, section@),
{
    let parsed = match ini::Ini::load_from_str(text) {
        Ok(i) => i,
        Err(_) => {
            return Vec::new();
        },
    };
    match parsed.section(Some(section)) {
        Some(props) => props.iter().map(|(_, v)| v.to_string()).collect(),
        None => Vec::new(),
    }
}

/// What is known about the open workspace.
#[derive(Debug)]
pub struct WorkspaceInfo {
    root_folder: String,
    dataflex_version: Option<String>,
    projects: Vec<ProjectInfo>,
}

/// One project inside the workspace.
#[derive(Debug)]
pub struct ProjectInfo {
    pub main_file: String,
}

impl WorkspaceInfo {
    pub closed spec fn spec_root_folder(&self) -> Seq<char> {
        self.root_folder@
    }

    pub closed spec fn spec_version(&self) -> Option<Seq<char>> {
        match self.dataflex_version {
            Some(v) => Some(v@),
            None => None,
        }
    }

    pub closed spec fn spec_projects(&self) -> Seq<ProjectInfo> {
        self.projects@
    }

    /// An empty workspace with no root, version or projects.
    pub fn new() -> (r: WorkspaceInfo)
        ensures
            r.spec_root_folder() == Seq::<char>::empty(),
            r.spec_version() is None,
            r.spec_projects().len() == 0,
    {
        WorkspaceInfo { root_folder: String::new(), dataflex_version: None, projects: Vec::new() }
    }

    /// The workspace root folder.
    pub fn get_root_folder(&self) -> (r: &String)
        ensures
            r@ == self.spec_root_folder(),
    {
        &self.root_folder
    }

    /// The language version named by the descriptor, if any.
    pub fn get_dataflex_version(&self) -> (r: Option<&String>)
        ensures
            r matches Some(v) ==> self.spec_version() matches Some(w) && v@ == w,
            r is None ==> self.spec_version() is None,
    {
        self.dataflex_version.as_ref()
    }

    /// The projects named by the descriptor.
    pub fn projects(&self) -> (r: &Vec<ProjectInfo>)
        ensures
            r@ == self.spec_projects(),
    {
        &self.projects
    }

    /// Parse a workspace descriptor: the version from `[Properties]`,
    /// and one project per `[Projects]` value, its main file resolved
    /// under `<root>/AppSrc`.
    pub fn load_from_descriptor(text: &str, root_folder: String) -> (r: WorkspaceInfo)
        ensures
            r.spec_root_folder() == root_folder@,
            r.spec_version() == ini_value_of(text@, "Properties"@, "Version"@),
            r.spec_projects().len() == ini_section_values_of(text@, "Projects"@).len(),
            forall|i: int|
                0 <= i < r.spec_projects().len() ==> (#[trigger] r.spec_projects()[i]).main_file@
                    == root_folder@ + "/AppSrc/"@ + ini_section_values_of(text@, "Projects"@)[i],
    {
        let dataflex_version = ini_value(text, "Properties", "Version");
        let names = ini_section_values(text, "Projects");
        let mut projects: Vec<ProjectInfo> = Vec::new();
        let mut i: usize = 0;
        while i < names.len()
            invariant
                i <= names@.len(),
                projects@.len() == i,
                forall|j: int|
                    0 <= j < i ==> (#[trigger] projects@[j]).main_file@ == root_folder@
                        + "/AppSrc/"@ + names@[j]@,
        decreases names@.len() - i,
        {
            let mut main_file = root_folder.clone();
            main_file.append("/AppSrc/");
            main_file.append(names[i].as_str());
            projects.push(ProjectInfo { main_file });
            i += 1;
        }
        proof {
            assert(names.deep_view().len() == names@.len());
            assert forall|j: int| 0 <= j < names@.len() implies names@[j]@ == ini_section_values_of(
                text@,
                "Projects"@,
            )[j] by {
                assert(names.deep_view()[j] == names@[j]@);
            }
        }
        WorkspaceInfo { root_folder, dataflex_version, projects }
    }
}

} // verus!
