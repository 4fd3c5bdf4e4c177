//! The schema repository: where to fetch it from, and the data its files describe.
use crate::paramdef::DefBaseType;
use std::collections::HashMap;
use vstd::prelude::*;

verus! {

/// Where to fetch a schema repository from: a git remote, an optional branch or tag, the
/// path of the schemas inside the repository, and the games whose schemas are wanted.
#[derive(Debug, PartialEq, Eq)]
pub struct ParamdexGitFetch {
    pub git_url: String,
    pub branch: Option<String>,
    pub paramdex_path: String,
    pub games: Vec<String>,
}

impl ParamdexGitFetch {
    /// A fetch of the default branch of `git_url`, with the schemas at the repository root
    /// and no game selected yet.
    pub fn new(git_url: &str) -> (r: Self)
        ensures
            r.git_url@ == git_url@,
            r.branch is None,
            r.paramdex_path@ == "."@,
            r.games@.len() == 0,
    {
        ParamdexGitFetch {
            git_url: git_url.to_owned(),
            branch: None,
            paramdex_path: ".".to_owned(),
            games: Vec::new(),
        }
    }

    /// Selects the branch or tag to fetch.
    pub fn branch(&mut self, branch: &str) -> (r: &mut Self)
        ensures
            *final(self) == *final(r),
            r.git_url == old(self).git_url,
            r.branch is Some && r.branch->0@ == branch@,
            r.paramdex_path == old(self).paramdex_path,
            r.games == old(self).games,
    {
        self.branch = Some(branch.to_owned());
        self
    }

    /// Sets the path of the schemas inside the repository.
    pub fn paramdex_path(&mut self, path: &str) -> (r: &mut Self)
        ensures
            *final(self) == *final(r),
            r.git_url == old(self).git_url,
            r.branch == old(self).branch,
            r.paramdex_path@ == path@,
            r.games == old(self).games,
    {
        self.paramdex_path = path.to_owned();
        self
    }

    /// Adds games to fetch the schemas of.
    pub fn games(&mut self, games: &[&str]) -> (r: &mut Self)
        ensures
            *final(self) == *final(r),
            r.git_url == old(self).git_url,
            r.branch == old(self).branch,
            r.paramdex_path == old(self).paramdex_path,
            r.games@.len() == old(self).games@.len() + games@.len(),
            forall|k: int| 0 <= k < old(self).games@.len() ==> #[trigger] r.games@[k] == old(self).games@[k],
            forall|k: int| 0 <= k < games@.len() ==> #[trigger] r.games@[old(self).games@.len() + k]@ == games@[k]@,
    {
        let mut i: usize = 0;
        while i < games.len()
            invariant
                i <= games@.len(),
                self.git_url == old(self).git_url,
                self.branch == old(self).branch,
                self.paramdex_path == old(self).paramdex_path,
                self.games@.len() == old(self).games@.len() + i,
                forall|k: int| 0 <= k < old(self).games@.len() ==> #[trigger] self.games@[k] == old(self).games@[k],
                forall|k: int| 0 <= k < i ==> #[trigger] self.games@[old(self).games@.len() + k]@ == games@[k]@,
            decreases games@.len() - i,
        {
            self.games.push(games[i].to_owned());
            i += 1;
        }
        self
    }
}

/// Where to fetch the schemas of one game from.
#[derive(Debug)]
pub struct ParamdexFetchConfig {
    pub git_url: String,
    pub branch_or_tag: String,
    pub path_to_game: String,
}

/// The enum catalogue of a game.
#[derive(Debug)]
pub struct ProjectEnums {
    pub list: Vec<ProjectEnum>,
}

/// One enum of the catalogue.
#[derive(Debug)]
pub struct ProjectEnum {
    pub display_name: String,
    pub name: String,
    pub description: String,
    pub options: Vec<EnumOption>,
}

/// One value of a catalogue enum.
#[derive(Debug)]
pub struct EnumOption {
    pub id: String,
    pub name: String,
    pub description: String,
}

/// The sidecar description of a row type.
#[derive(Debug)]
pub struct ParamMeta {
    pub xml_version: u64,
    pub enums: ParamMetaEnums,
    pub fields: HashMap<String, ParamMetaField>,
    pub self_desc: Option<String>,
}

/// The enums a sidecar declares.
#[derive(Debug, Default)]
pub struct ParamMetaEnums {
    pub entries: Vec<ParamMetaEnum>,
}

/// One enum declared by a sidecar.
#[derive(Debug)]
pub struct ParamMetaEnum {
    pub name: String,
    pub base_type: DefBaseType,
    pub options: Vec<ParamEnumOption>,
}

/// One value of a sidecar enum.
#[derive(Debug)]
pub struct ParamEnumOption {
    pub value: i64,
    pub name: String,
}

/// The sidecar description of one field.
#[derive(Debug, Default)]
pub struct ParamMetaField {
    pub alt_name: String,
    pub wiki: Option<String>,
    pub enum_name: Option<String>,
    pub project_enum: Option<String>,
    pub is_bool: bool,
}

} // verus!
