//! The template registry: named templates and where their copies live.
//!
//! Loading and saving the registry as JSON is the surrounding
//! application's business; the library holds the in-memory registry and
//! the rules that govern it.

use std::collections::BTreeMap;
use vstd::prelude::*;

verus! {

broadcast use vstd::std_specs::btree::group_btree_axioms;

/// A captured template: its name, an optional description, and the name of
/// the directory that stores its files.
pub struct Template {
    pub name: String,
    pub description: Option<String>,
    pub directory_name: String,
}

/// Key of a template in the registry, derived from its name.
pub type TemplateKey = u64;

/// The digest of a template name: a function of the name's characters
/// alone.
pub uninterp spec fn name_digest(name: Seq<char>) -> u64;

/// Relies on std's DefaultHasher fed through Hash for str: the finished
/// digest depends on the hashed characters alone.
#[verifier::external_body]
fn hash_name(name: &str) -> (r: u64)
    ensures
        r == name_digest(name@),
{
    let mut hasher = std::collections::hash_map::DefaultHasher::default();
    std::hash::Hash::hash(name, &mut hasher);
    std::hash::Hasher::finish(&hasher)
}

/// The registry: templates by key, plus the version of the program that
/// wrote it.
pub struct Config {
    pub version: String,
    pub templates: BTreeMap<TemplateKey, Template>,
}

impl Config {
    /// An empty registry stamped with the given version.
    pub fn new(version: String) -> (r: Config)
        ensures
            r.version == version,
            r.templates@ == Map::<TemplateKey, Template>::empty(),
    {
        Config { version, templates: BTreeMap::new() }
    }

    /// The registry key a template goes under: the digest of its name.
    pub fn get_template_key(template: &Template) -> (r: TemplateKey)
        ensures
            r == name_digest(template.name@),
    {
        hash_name(template.name.as_str())
    }

    /// Inserts a template under the key derived from its name. If the key
    /// is already taken the registry is left unchanged and the key comes
    /// back as the error; otherwise the template is inserted and the key
    /// comes back as the success value.
    pub fn insert_template(&mut self, template: Template) -> (r: Result<TemplateKey, TemplateKey>)
        ensures
            final(self).version == old(self).version,
            r matches Ok(k) ==> k == name_digest(template.name@) && !old(
                self,
            ).templates@.contains_key(k) && final(self).templates@ == old(
                self,
            ).templates@.insert(k, template),
            r matches Err(k) ==> k == name_digest(template.name@) && old(
                self,
            ).templates@.contains_key(k) && final(self).templates@ == old(self).templates@,
    {
        let key = Config::get_template_key(&template);
        if self.templates.contains_key(&key) {
            return Err(key);
        }
        self.templates.insert(key, template);
        Ok(key)
    }
}

/// A registry together with the directory its file representation lives in.
pub struct LoadedConfig {
    pub config: Config,
    pub path: String,
}

impl LoadedConfig {
    pub fn new(config: Config, path: String) -> (r: LoadedConfig)
        ensures
            r.config == config,
            r.path == path,
    {
        LoadedConfig { config, path }
    }
}

} // verus!
