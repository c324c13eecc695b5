//! Code-hosting platforms that projects live on, as a closed set.
use vstd::prelude::*;
use vstd::string::StringExecFns;

verus! {

/// A GitHub instance: where its API and its repositories are served.
#[derive(Debug, Clone)]
pub struct Github {
    pub api_path: String,
    pub git_path: String,
}

impl Github {
    /// The public github.com.
    pub fn github_com() -> (g: Github)
        ensures
            g.api_path@ == "https://api.github.com"@,
            g.git_path@ == "https://github.com"@,
    {
        Github { api_path: String::from_str("https://api.github.com"), git_path: String::from_str("https://github.com") }
    }

    /// A GitHub Enterprise instance at the given addresses.
    pub fn github_enterprise(api_path: &str, git_path: &str) -> (g: Github)
        ensures
            g.api_path@ == api_path@,
            g.git_path@ == git_path@,
    {
        Github { api_path: String::from_str(api_path), git_path: String::from_str(git_path) }
    }
}

/// A project on a GitHub instance.
#[derive(Debug, Clone)]
pub struct GithubProject {
    pub platform: Github,
    pub url: String,
}

impl GithubProject {
    /// Where the project's repository is cloned from: its address with `.git`.
    pub fn git_url(&self) -> (r: Option<String>)
        ensures
            r matches Some(u) && u@ == self.url@ + ".git"@,
    {
        Some(self.url.clone().concat(".git"))
    }
}

/// What a merge request merges: from its head into its base.
#[derive(Debug, Clone)]
pub struct MergeRequest {
    /// The base or target of the merge request.
    pub base: String,
    /// The head or source of the merge request.
    pub head: String,
}

/// The supported platforms, each standing for the constructor of its
/// configurations.
#[derive(Debug, Clone, Copy, PartialEq, Eq, Structural)]
pub enum Loader {
    Github,
}

/// Which loader a configuration's `type` names: the last one registered
/// under that name.
pub open spec fn lookup(entries: Seq<(Seq<char>, Loader)>, name: Seq<char>) -> Option<Loader>
    decreases entries.len(),
{
    if entries.len() == 0 {
        None
    } else if entries.last().0 == name {
        Some(entries.last().1)
    } else {
        lookup(entries.drop_last(), name)
    }
}

/// The loaders by name, built once and handed to whoever loads
/// configurations.
pub struct Registry {
    pub entries: Vec<(String, Loader)>,
}

impl View for Registry {
    type V = Seq<(Seq<char>, Loader)>;

    open spec fn view(&self) -> Seq<(Seq<char>, Loader)> {
        self.entries@.map_values(|e: (String, Loader)| (e.0@, e.1))
    }
}

impl Registry {
    /// The registry of the supported platforms: `github`.
    pub fn new() -> (r: Registry)
        ensures
            r@ == seq![("github"@, Loader::Github)],
    {
        let mut entries: Vec<(String, Loader)> = Vec::new();
        entries.push((String::from_str("github"), Loader::Github));
        let r = Registry { entries };
        assert(r@ =~= seq![("github"@, Loader::Github)]);
        r
    }

    /// Registers `loader` under `name`, over any earlier one of that name.
    pub fn register_platform(&mut self, name: &str, loader: Loader)
        ensures
            final(self)@ == old(self)@.push((name@, loader)),
    {
        self.entries.push((String::from_str(name), loader));
        assert(self@ =~= old(self)@.push((name@, loader)));
    }

    /// The loader registered under `name`, if any.
    pub fn get_platform(&self, name: &str) -> (r: Option<Loader>)
        ensures
            r == lookup(self@, name@),
    {
        let key = String::from_str(name);
        let mut i: usize = self.entries.len();
        assert(self@.subrange(0, i as int) =~= self@);
        while i > 0
            invariant
                i <= self.entries@.len(),
                key@ == name@,
                lookup(self@, name@) == lookup(self@.subrange(0, i as int), name@),
            decreases i,
        {
            proof {
                let sub = self@.subrange(0, i as int);
                assert(sub.drop_last() =~= self@.subrange(0, i - 1));
                assert(sub.last() == (self.entries@[i - 1].0@, self.entries@[i - 1].1));
            }
            if self.entries[i - 1].0 == key {
                return Some(self.entries[i - 1].1);
            }
            i = i - 1;
        }
        None
    }
}

} // verus!
