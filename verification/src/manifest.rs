//! The configuration of a plugin: everything the manifest document
//! describes, as plain verified data.

use vstd::prelude::*;

verus! {

/// What `str::to_lowercase` yields: a function of the characters alone.
pub uninterp spec fn lower_of(s: Seq<char>) -> Seq<char>;

/// Relies on `str::to_lowercase`: the Unicode lowercase mapping of the
/// text, a function of the characters alone.
#[verifier::external_body]
fn to_lowercase_text(s: &str) -> (r: String)
    ensures
        r@ == lower_of(s@),
{
    s.to_lowercase()
}

/// `t` with every space replaced by a dash.
pub open spec fn dash_spaces(t: Seq<char>) -> Seq<char> {
    t.map_values(|c: char| if c == ' ' { '-' } else { c })
}

/// Replaces every space with a dash.
fn replace_spaces(s: &str) -> (r: String)
    ensures
        r@ == dash_spaces(s@),
{
    let cs = crate::text::chars_of(s);
    let mut out: Vec<char> = Vec::new();
    let n = cs.len();
    let mut i: usize = 0;
    while i < n
        invariant
            n == cs@.len(),
            cs@ == s@,
            i <= n,
            out@ =~= dash_spaces(s@.subrange(0, i as int)),
        decreases n - i,
    {
        let c = cs[i];
        if c == ' ' {
            out.push('-');
        } else {
            out.push(c);
        }
        proof {
            assert(out@ =~= dash_spaces(s@.subrange(0, i + 1)));
        }
        i = i + 1;
    }
    proof {
        assert(s@.subrange(0, n as int) =~= s@);
    }
    crate::text::string_from_chars(&out)
}

/// An insertion-ordered mapping from strings to strings, as the manifest's
/// dependency tables hold it. Keys are unique: inserting an existing key
/// overwrites its value in place.
#[derive(Debug, Clone, PartialEq)]
pub struct StringMap {
    entries: Vec<(String, String)>,
}

/// The position of the first entry keyed `k`, or the length when none is.
pub open spec fn str_key_index(entries: Seq<(Seq<char>, Seq<char>)>, k: Seq<char>) -> int
    decreases entries.len(),
{
    if entries.len() == 0 {
        0
    } else if entries[0].0 == k {
        0
    } else {
        1 + str_key_index(entries.drop_first(), k)
    }
}

/// `str_key_index` points at the first entry keyed `k`, past the end when
/// none is.
pub proof fn lemma_str_key_index(entries: Seq<(Seq<char>, Seq<char>)>, k: Seq<char>)
    ensures
        0 <= str_key_index(entries, k) <= entries.len(),
        str_key_index(entries, k) < entries.len() ==> entries[str_key_index(entries, k)].0 == k,
        forall|j: int| 0 <= j < str_key_index(entries, k) ==> entries[j].0 != k,
    decreases entries.len(),
{
    if entries.len() > 0 && entries[0].0 != k {
        lemma_str_key_index(entries.drop_first(), k);
        assert forall|j: int| 0 <= j < str_key_index(entries, k) implies entries[j].0 != k by {
            if j > 0 {
                assert(entries.drop_first()[j - 1] == entries[j]);
            }
        }
    }
}

impl StringMap {
    /// Mathematical image: the key/value pairs in insertion order.
    pub closed spec fn view(&self) -> Seq<(Seq<char>, Seq<char>)> {
        Seq::new(self.entries@.len(), |i: int| (self.entries@[i].0@, self.entries@[i].1@))
    }

    /// An empty mapping.
    pub fn new() -> (r: StringMap)
        ensures
            r.view() == Seq::<(Seq<char>, Seq<char>)>::empty(),
    {
        let r = StringMap { entries: Vec::new() };
        proof {
            assert(r.view() =~= Seq::<(Seq<char>, Seq<char>)>::empty());
        }
        r
    }

    /// How many keys the mapping holds.
    pub fn len(&self) -> (n: usize)
        ensures
            n == self.view().len(),
    {
        self.entries.len()
    }

    /// The entry at position `i`, in insertion order.
    pub fn entry_at(&self, i: usize) -> (r: &(String, String))
        requires
            i < self.view().len(),
        ensures
            r.0@ == self.view()[i as int].0,
            r.1@ == self.view()[i as int].1,
    {
        &self.entries[i]
    }

    /// The value bound to `key`, if any.
    pub fn get(&self, key: &str) -> (r: Option<&String>)
        ensures
            match r {
                Some(v) => str_key_index(self.view(), key@) < self.view().len() && self.view()[
                    str_key_index(self.view(), key@)].1 == v@,
                None => str_key_index(self.view(), key@) == self.view().len(),
            },
    {
        proof {
            lemma_str_key_index(self.view(), key@);
        }
        let n = self.entries.len();
        let mut i: usize = 0;
        while i < n
            invariant
                n == self.view().len(),
                n == self.entries@.len(),
                i <= n,
                forall|j: int| 0 <= j < i ==> self.view()[j].0 != key@,
            decreases n - i,
        {
            if crate::text::str_eq(self.entries[i].0.as_str(), key) {
                proof {
                    assert(self.view()[i as int].0 == key@);
                    lemma_str_key_index(self.view(), key@);
                    let ki = str_key_index(self.view(), key@);
                    if ki < i {
                        assert(self.view()[ki].0 == key@);
                    }
                    if i < ki {
                        assert(self.view()[i as int].0 != key@);
                    }
                }
                return Some(&self.entries[i].1);
            }
            i = i + 1;
        }
        proof {
            lemma_str_key_index(self.view(), key@);
            let ki = str_key_index(self.view(), key@);
            if ki < n {
                assert(self.view()[ki].0 == key@);
            }
        }
        None
    }

    /// Binds `key` to `value`: an existing key keeps its position and gets
    /// the new value; a new key is appended.
    pub fn insert(&mut self, key: String, value: String)
        ensures
            final (self).view() == (if str_key_index(old(self).view(), key@) < old(
                self,
            ).view().len() {
                old(self).view().update(str_key_index(old(self).view(), key@), (key@, value@))
            } else {
                old(self).view().push((key@, value@))
            }),
    {
        proof {
            lemma_str_key_index(self.view(), key@);
        }
        let n = self.entries.len();
        let mut i: usize = 0;
        while i < n
            invariant
                *self == *old(self),
                n == self.view().len(),
                n == self.entries@.len(),
                i <= n,
                forall|j: int| 0 <= j < i ==> self.view()[j].0 != key@,
            decreases n - i,
        {
            if crate::text::str_eq(self.entries[i].0.as_str(), key.as_str()) {
                proof {
                    assert(self.view()[i as int].0 == key@);
                    lemma_str_key_index(self.view(), key@);
                    let ki = str_key_index(self.view(), key@);
                    if ki < i {
                        assert(self.view()[ki].0 == key@);
                    }
                    if i < ki {
                        assert(self.view()[i as int].0 != key@);
                    }
                }
                self.entries.remove(i);
                self.entries.insert(i, (key, value));
                proof {
                    assert(final (self).view() =~= old(self).view().update(
                        i as int,
                        (key@, value@),
                    ));
                }
                return ;
            }
            i = i + 1;
        }
        proof {
            lemma_str_key_index(self.view(), key@);
            let ki = str_key_index(self.view(), key@);
            if ki < n {
                assert(self.view()[ki].0 == key@);
            }
        }
        self.entries.push((key, value));
        proof {
            assert(final (self).view() =~= old(self).view().push((key@, value@)));
        }
    }
}

/// Everything the plugin manifest document describes.
#[derive(Debug, Clone, PartialEq)]
pub struct PluginManifest {
    pub name: String,
    pub display_name: String,
    pub version: String,
    pub description: String,
    pub license: String,
    pub keywords: Vec<String>,
    pub tags: Vec<String>,
    pub homepage: Option<String>,
    pub repository: Option<Repository>,
    pub author: String,
    pub contributors: Option<Vec<String>>,
    pub main: String,
    pub engines: Engines,
    pub dependencies: StringMap,
    pub dev_dependencies: Option<StringMap>,
    pub host_dependencies: Option<StringMap>,
    pub permissions: Option<Permissions>,
    pub config: Option<PluginConfig>,
}

impl PluginManifest {
    /// Sets the display name as given, and the package name as its
    /// lowercase form with spaces dashed.
    pub fn set_name(&mut self, name: String)
        ensures
            final (self).name@ == dash_spaces(lower_of(name@)),
            final (self).display_name@ == name@,
            final (self).version == old(self).version,
            final (self).dependencies == old(self).dependencies,
    {
        let lowered = to_lowercase_text(name.as_str());
        self.name = replace_spaces(lowered.as_str());
        self.display_name = name;
    }
}

impl Default for PluginManifest {
    fn default() -> (r: Self)
        ensures
            r.name@ == Seq::<char>::empty(),
            r.display_name@ == Seq::<char>::empty(),
            r.version@ == "0.1.0"@,
            r.license@ == "MIT"@,
            r.main@ == "src/init.lua"@,
            r.keywords@.len() == 0,
            r.tags@.len() == 0,
            r.homepage is None,
            r.repository is None,
            r.contributors is None,
            r.dependencies.view().len() == 0,
            r.dev_dependencies is None,
            r.host_dependencies is None,
            r.permissions is Some,
            r.config is Some,
    {
        PluginManifest {
            name: String::new(),
            display_name: String::new(),
            version: "0.1.0".to_owned(),
            description: String::new(),
            license: "MIT".to_owned(),
            keywords: Vec::new(),
            tags: Vec::new(),
            homepage: None,
            repository: None,
            author: String::new(),
            contributors: None,
            main: "src/init.lua".to_owned(),
            engines: Engines::default(),
            dependencies: StringMap::new(),
            dev_dependencies: None,
            host_dependencies: None,
            permissions: Some(Permissions::default()),
            config: Some(PluginConfig::default()),
        }
    }
}

/// Where the plugin's sources live.
#[derive(Debug, Clone, PartialEq)]
pub struct Repository {
    pub kind: String,
    pub url: String,
}

impl Default for Repository {
    fn default() -> (r: Self)
        ensures
            r.kind@ == "git"@,
            r.url@ == Seq::<char>::empty(),
    {
        Repository { kind: "git".to_owned(), url: String::new() }
    }
}

/// The engine versions the plugin expects.
#[derive(Debug, Clone, PartialEq)]
pub struct Engines {
    pub lua: String,
    pub host: String,
}

impl Default for Engines {
    fn default() -> (r: Self)
        ensures
            r.lua@ == "5.1"@,
            r.host@ == "*"@,
    {
        Engines { lua: "5.1".to_owned(), host: "*".to_owned() }
    }
}

/// What the plugin may touch.
#[derive(Debug, Clone, PartialEq)]
pub struct Permissions {
    pub filesystem: Option<FileSystemPermission>,
    pub network: Option<NetworkPermission>,
    pub limits: Option<Limits>,
}

impl Permissions {
    /// Permissions with all three parts present.
    pub fn new(fs: FileSystemPermission, net: NetworkPermission, lim: Limits) -> (r: Self)
        ensures
            r.filesystem == Some(fs),
            r.network == Some(net),
            r.limits == Some(lim),
    {
        Permissions { filesystem: Some(fs), network: Some(net), limits: Some(lim) }
    }
}

impl Default for Permissions {
    fn default() -> (r: Self)
        ensures
            r.filesystem is None,
            r.network is None,
            r.limits is None,
    {
        Permissions { filesystem: None, network: None, limits: None }
    }
}

/// What the plugin may do on the file system.
#[derive(Debug, Clone, PartialEq)]
pub struct FileSystemPermission {
    pub scope: FileSystemScope,
    pub allow: Vec<String>,
    pub deny: Vec<String>,
}

impl Default for FileSystemPermission {
    fn default() -> (r: Self)
        ensures
            r.scope == FileSystemScope::NoAccess,
            r.allow@.len() == 0,
            r.deny@.len() == 0,
    {
        FileSystemPermission { scope: FileSystemScope::NoAccess, allow: Vec::new(), deny: Vec::new() }
    }
}

/// How far file-system access reaches.
#[derive(Debug, Clone, PartialEq, Eq, Structural)]
pub enum FileSystemScope {
    ReadOnly,
    ReadWrite,
    NoAccess,
}

impl Default for FileSystemScope {
    fn default() -> (r: Self)
        ensures
            r == FileSystemScope::NoAccess,
    {
        FileSystemScope::NoAccess
    }
}

/// What the plugin may do on the network.
#[derive(Debug, Clone, PartialEq)]
pub struct NetworkPermission {
    pub allow_outbound: Vec<String>,
    pub allow_inbound: bool,
}

impl NetworkPermission {
    /// A network permission with the given outbound hosts.
    pub fn new(allow_outbound: Vec<String>, allow_inbound: bool) -> (r: Self)
        ensures
            r.allow_outbound == allow_outbound,
            r.allow_inbound == allow_inbound,
    {
        NetworkPermission { allow_outbound, allow_inbound }
    }
}

impl Default for NetworkPermission {
    fn default() -> (r: Self)
        ensures
            r.allow_outbound@.len() == 0,
            r.allow_inbound == false,
    {
        NetworkPermission { allow_outbound: Vec::new(), allow_inbound: false }
    }
}

/// Resource ceilings for the plugin.
#[derive(Debug, Clone, PartialEq, Eq, Structural)]
pub struct Limits {
    pub max_memory_mb: u32,
    pub max_execution_time_ms: u64,
    pub max_threads: u16,
}

impl Default for Limits {
    fn default() -> (r: Self)
        ensures
            r.max_memory_mb == 128,
            r.max_execution_time_ms == 10000,
            r.max_threads == 10,
    {
        Limits { max_memory_mb: 128, max_execution_time_ms: 10000, max_threads: 10 }
    }
}

/// Transfer settings for the plugin.
#[derive(Debug, Clone, PartialEq, Eq, Structural)]
pub struct PluginConfig {
    pub max_file_size: u64,
    pub chunk_size: u64,
    pub retry_attempts: u32,
}

impl Default for PluginConfig {
    fn default() -> (r: Self)
        ensures
            r.max_file_size == 5 * 1024 * 1024,
            r.chunk_size == 4096,
            r.retry_attempts == 3,
    {
        PluginConfig { max_file_size: 5 * 1024 * 1024, chunk_size: 4096, retry_attempts: 3 }
    }
}

/// Who may see and install the plugin.
#[derive(Debug, Clone, PartialEq, Eq, Structural)]
pub enum PluginAccess {
    Public,
    Private,
}

impl Default for PluginAccess {
    fn default() -> (r: Self)
        ensures
            r == PluginAccess::Public,
    {
        PluginAccess::Public
    }
}

impl PluginAccess {
    /// The access level's wire name.
    pub fn as_str(&self) -> (r: &'static str)
        ensures
            r@ == match self {
                PluginAccess::Public => "public"@,
                PluginAccess::Private => "private"@,
            },
    {
        match self {
            PluginAccess::Public => "public",
            PluginAccess::Private => "private",
        }
    }

    /// The access level a wire name denotes; anything else is refused, the
    /// message naming the rejected input.
    pub fn from_str(s: &str) -> (r: Result<Self, String>)
        ensures
            match r {
                Ok(a) => (a == PluginAccess::Public && s@ == "public"@) || (a
                    == PluginAccess::Private && s@ == "private"@),
                Err(m) => s@ != "public"@ && s@ != "private"@ && m@ == "Invalid access level: "@
                    + s@,
            },
    {
        if crate::text::str_eq(s, "public") {
            Ok(PluginAccess::Public)
        } else if crate::text::str_eq(s, "private") {
            Ok(PluginAccess::Private)
        } else {
            Err("Invalid access level: ".to_owned().concat(s))
        }
    }
}

} // verus!
