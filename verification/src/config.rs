//! The build-time configuration: where the resource tree lives, per
//! environment, and the optional explicit locale graph.
//!
//! Reading and deserializing a configuration file is left to the embedding
//! program; this module holds the configuration values and the path
//! selection rules.

use vstd::prelude::*;

use crate::locales::Locales;

verus! {

/// The configured resource-tree paths: one per named environment, and a
/// default.
pub struct Paths {
    /// Environment name paired with its path, first match winning.
    pub environments: Vec<(String, String)>,
    /// The path used when no environment is selected.
    pub default: String,
}

/// The engine configuration.
pub struct Config {
    pub paths: Paths,
    pub locales: Option<Locales>,
}

/// A failure to locate or read a configuration.
#[derive(Debug)]
pub enum ConfigError {
    /// No project root was available to resolve a relative path against.
    CargoManifestDir,
    ReadFile { path: String, message: String },
    Deserialize { path: String, message: String },
    /// The selected environment has no configured path.
    MissingPathError(String),
}

/// The paths used when no configuration names any: the `l10n` directory,
/// for every environment.
pub fn default_paths() -> (r: Paths)
    ensures
        r.environments@.len() == 0,
        r.default@ == "l10n"@,
{
    Paths { environments: Vec::new(), default: String::from_str("l10n") }
}

impl Default for Config {
    fn default() -> (r: Self)
        ensures
            r.paths.environments@.len() == 0,
            r.paths.default@ == "l10n"@,
            r.locales is None,
    {
        Config { paths: default_paths(), locales: None }
    }
}

/// The path configured for an environment name: the first pair with that
/// name, or `None`.
pub open spec fn lookup_env(envs: Seq<(String, String)>, name: Seq<char>) -> Option<Seq<char>>
    decreases envs.len(),
{
    if envs.len() == 0 {
        None
    } else if envs[0].0@ == name {
        Some(envs[0].1@)
    } else {
        lookup_env(envs.drop_first(), name)
    }
}

proof fn lemma_lookup_env_at(envs: Seq<(String, String)>, name: Seq<char>, i: int)
    requires
        0 <= i < envs.len(),
        envs[i].0@ == name,
        forall|k: int| 0 <= k < i ==> (#[trigger] envs[k]).0@ != name,
    ensures
        lookup_env(envs, name) == Some(envs[i].1@),
    decreases i,
{
    if i > 0 {
        assert(forall|k: int|
            0 <= k < envs.len() - 1 ==> (#[trigger] envs.drop_first()[k]) == envs[k + 1]);
        lemma_lookup_env_at(envs.drop_first(), name, i - 1);
    }
}

proof fn lemma_lookup_env_absent(envs: Seq<(String, String)>, name: Seq<char>)
    requires
        forall|k: int| 0 <= k < envs.len() ==> (#[trigger] envs[k]).0@ != name,
    ensures
        lookup_env(envs, name) is None,
    decreases envs.len(),
{
    if envs.len() > 0 {
        assert(forall|k: int|
            0 <= k < envs.len() - 1 ==> (#[trigger] envs.drop_first()[k]) == envs[k + 1]);
        lemma_lookup_env_absent(envs.drop_first(), name);
    }
}

impl Config {
    /// The resource-tree path to use: the path of the selected environment,
    /// or the default where none is selected.  An environment without a
    /// configured path is an error naming it.
    #[verifier::loop_isolation(false)]
    pub fn path(&self, environment: &Option<String>) -> (r: Result<String, ConfigError>)
        ensures
            environment is None ==> (r matches Ok(s) && s@ == self.paths.default@),
            environment matches Some(env) ==> match lookup_env(self.paths.environments@, env@) {
                Some(p) => r matches Ok(s) && s@ == p,
                None => r matches Err(ConfigError::MissingPathError(n)) && n@ == env@,
            },
    {
        match environment {
            Some(env) => {
                let n = self.paths.environments.len();
                let mut i: usize = 0;
                while i < n
                    invariant
                        i <= n,
                        n == self.paths.environments.len(),
                        forall|k: int|
                            0 <= k < i ==> (#[trigger] self.paths.environments@[k]).0@ != env@,
                    decreases n - i,
                {
                    if crate::utils::str_eq(self.paths.environments[i].0.as_str(), env.as_str()) {
                        proof {
                            lemma_lookup_env_at(self.paths.environments@, env@, i as int);
                        }
                        let found = self.paths.environments[i].1.clone();
                        proof {
                            assert(found@ == self.paths.environments@[i as int].1@);
                            assert(lookup_env(self.paths.environments@, env@) == Some(found@));
                        }
                        return Ok(found);
                    }
                    i += 1;
                }
                proof {
                    lemma_lookup_env_absent(self.paths.environments@, env@);
                }
                Err(ConfigError::MissingPathError(env.clone()))
            },
            None => Ok(self.paths.default.clone()),
        }
    }
}

/// The rest of the path after a leading `$ROOT` component, where it has
/// one.
pub open spec fn root_var_rest(path: Seq<char>) -> Option<Seq<char>> {
    if path == "$ROOT"@ {
        Some(Seq::empty())
    } else if path.len() >= 6 && path.subrange(0, 5) == "$ROOT"@ && path[5] == '/' {
        Some(path.subrange(6, path.len() as int))
    } else {
        None
    }
}

/// The directory part of a path: everything before the last slash, or
/// `None` where the path has no slash.
pub open spec fn parent_dir(p: Seq<char>) -> Option<Seq<char>> {
    if exists|i: int| 0 <= i < p.len() && p[i] == '/' {
        Some(p.subrange(0, last_slash(p, p.len() - 1)))
    } else {
        None
    }
}

/// The largest index at or before `from` holding a slash, or `-1`.
pub open spec fn last_slash(p: Seq<char>, from: int) -> int
    decreases from + 1,
{
    if from < 0 || from >= p.len() {
        -1
    } else if p[from] == '/' {
        from
    } else {
        last_slash(p, from - 1)
    }
}

/// How `$ROOT` in a configured relative path is replaced: by the directory
/// of the configuration file, or the filesystem root where it has none.
pub open spec fn root_replaced(path: Seq<char>, root_path: Seq<char>) -> Seq<char> {
    if path.len() > 0 && path[0] == '/' {
        path
    } else {
        match root_var_rest(path) {
            None => path,
            Some(rest) => match parent_dir(root_path) {
                None => rest,
                Some(par) => if par.len() == 0 {
                    "/"@ + rest
                } else {
                    par + "/"@ + rest
                },
            },
        }
    }
}

proof fn lemma_last_slash(p: Seq<char>, from: int)
    requires
        -1 <= from < p.len(),
    ensures
        -1 <= last_slash(p, from) <= from,
        last_slash(p, from) >= 0 ==> p[last_slash(p, from)] == '/',
        forall|k: int| last_slash(p, from) < k <= from ==> 0 <= k < p.len() ==> p[k] != '/',
        (exists|i: int| 0 <= i <= from && p[i] == '/') ==> last_slash(p, from) >= 0,
    decreases from + 1,
{
    if from >= 0 && p[from] != '/' {
        lemma_last_slash(p, from - 1);
    }
}

/// Replaces a leading `$ROOT` in a relative path with the directory of the
/// configuration file.  An absolute path, or one without the marker, is
/// left unchanged.
#[verifier::loop_isolation(false)]
pub fn replace_root_var_in_path(path: &mut String, root_path: &String)
    ensures
        final (path)@ == root_replaced(old(path)@, root_path@),
{
    proof {
        reveal_strlit("$ROOT");
        reveal_strlit("/");
    }
    let p = path.as_str();
    let n = p.unicode_len();
    if n > 0 && p.get_char(0) == '/' {
        return ;
    }
    // does the path start with a `$ROOT` component?
    if n < 5 || !(p.get_char(0) == '$' && p.get_char(1) == 'R' && p.get_char(2) == 'O'
        && p.get_char(3) == 'O' && p.get_char(4) == 'T') {
        proof {
            assert(old(path)@ != "$ROOT"@ && !(old(path)@.len() >= 6 && old(path)@.subrange(0, 5)
                == "$ROOT"@)) by {
                if old(path)@.len() >= 5 && old(path)@.subrange(0, 5) == "$ROOT"@ {
                    let sub = old(path)@.subrange(0, 5);
                    assert(sub[0] == '$' && sub[1] == 'R' && sub[2] == 'O' && sub[3] == 'O'
                        && sub[4] == 'T');
                }
                if old(path)@ == "$ROOT"@ {
                    assert(old(path)@[0] == '$' && old(path)@[1] == 'R' && old(path)@[2] == 'O'
                        && old(path)@[3] == 'O' && old(path)@[4] == 'T');
                }
            }
        }
        return ;
    }
    if n > 5 && p.get_char(5) != '/' {
        proof {
            assert(root_var_rest(old(path)@) is None);
        }
        return ;
    }
    let rest = if n == 5 {
        String::new()
    } else {
        p.substring_char(6, n).to_owned()
    };
    proof {
        if n == 5 {
            assert(old(path)@ =~= "$ROOT"@);
        } else {
            assert(old(path)@.subrange(0, 5) =~= "$ROOT"@);
            assert(root_var_rest(old(path)@) == Some(old(path)@.subrange(6, n as int)));
        }
    }
    // find the directory of the configuration file
    let rp = root_path.as_str();
    let m = rp.unicode_len();
    let mut j: usize = m;
    while j > 0
        invariant
            j <= m,
            m == root_path@.len(),
            rp@ == root_path@,
            forall|k: int| j <= k < m ==> root_path@[k] != '/',
        decreases j,
    {
        if rp.get_char(j - 1) == '/' {
            proof {
                lemma_last_slash(root_path@, m as int - 1);
                assert(last_slash(root_path@, m as int - 1) == j - 1) by {
                    let ls = last_slash(root_path@, m as int - 1);
                    if ls > j as int - 1 {
                        assert(root_path@[ls] != '/');
                    }
                    if ls < j as int - 1 {
                        assert(root_path@[j as int - 1] != '/');
                    }
                }
                assert(parent_dir(root_path@) == Some(root_path@.subrange(0, j as int - 1)));
            }
            let par = rp.substring_char(0, j - 1);
            let mut out = String::new();
            if par.unicode_len() == 0 {
                out.append("/");
                out.append(rest.as_str());
                proof {
                    assert(root_path@.subrange(0, j as int - 1) =~= Seq::<char>::empty());
                    assert(out@ =~= root_replaced(old(path)@, root_path@));
                }
            } else {
                out.append(par);
                out.append("/");
                out.append(rest.as_str());
                proof {
                    assert(par@ == root_path@.subrange(0, j as int - 1));
                    assert(out@ =~= root_replaced(old(path)@, root_path@));
                }
            }
            *path = out;
            return ;
        }
        j -= 1;
    }
    proof {
        assert(parent_dir(root_path@) is None) by {
            if exists|i: int| 0 <= i < root_path@.len() && root_path@[i] == '/' {
                let i = choose|i: int| 0 <= i < root_path@.len() && root_path@[i] == '/';
            }
        }
    }
    *path = rest;
}

} // verus!
