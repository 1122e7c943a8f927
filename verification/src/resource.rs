//! The resource store: typed content records indexed by stable name and by
//! ephemeral session id, partitioned into packages backed by directories.

use vstd::prelude::*;
use vstd::std_specs::vec::vec_index_mut;
use crate::metadata::{meta_keys_distinct, meta_lookup, meta_set, parse_meta, parse_metadata, MetaMap};
use crate::name::{Name, NameV};
use crate::util::{
    hash, hash_spec, path_ext, path_stem, simplify_chars, simplify_str, split_path, str_eq,
};

verus! {

/// A session-scoped resource handle: a 16-bit value local to one running
/// store. 0 is reserved and never assigned by the allocator.
pub type SessionID = u16;

/// The content kind of a resource, inferred from its file extension.
/// Extensions nobody knows map to the generic `Unknown` kind.
#[derive(Debug, PartialEq, Eq, Copy, Clone, Hash, Structural)]
pub enum Type {
    Unknown,
    Lua,
}

/// The file extension written for a content kind.
pub open spec fn type_extension(t: Type) -> Seq<char> {
    match t {
        Type::Unknown => "what"@,
        Type::Lua => "lua"@,
    }
}

/// The content kind a file extension denotes.
pub open spec fn extension_type(e: Seq<char>) -> Type {
    if e == "lua"@ {
        Type::Lua
    } else {
        Type::Unknown
    }
}

impl Type {
    /// The file extension used when writing a resource of this kind.
    pub fn get_extension(&self) -> (r: &'static str)
        ensures
            r@ == type_extension(*self),
    {
        match *self {
            Type::Unknown => "what",
            Type::Lua => "lua",
        }
    }

    /// The content kind for a file extension.
    pub fn from_extension(extension: &str) -> (r: Type)
        ensures
            r == extension_type(extension@),
    {
        if str_eq(extension, "lua") {
            Type::Lua
        } else {
            Type::Unknown
        }
    }
}

/// The errors of the store. I/O failures are reported by the surrounding
/// code through `Io`; the store itself only fails for the domain reasons
/// below. `Ignored` is not a failure but a skip signal: the file is
/// reserved for metadata and is not a resource.
#[derive(Debug, PartialEq, Eq)]
pub enum Error {
    Other(&'static str),
    Io,
    Json,
    InvalidPackage,
    ResourceDoesNotExist,
    IncorrectVersion,
    ResourceWithNameAlreadyExists,
    Ignored,
}

/// The mathematical value of a [`Resource`].
#[verifier::ext_equal]
pub struct ResourceV {
    pub ty: Type,
    pub path: Seq<char>,
    pub name: NameV,
    pub session_id: SessionID,
    pub raw_data: Seq<u8>,
    pub hash: u64,
}

/// One named, typed, versioned content blob tracked by the store.
#[derive(Debug)]
pub struct Resource {
    ty: Type,
    path: String,
    name: Name,
    session_id: SessionID,
    raw_data: Vec<u8>,
    hash: u64,
}

impl View for Resource {
    type V = ResourceV;

    closed spec fn view(&self) -> ResourceV {
        ResourceV {
            ty: self.ty,
            path: self.path@,
            name: self.name@,
            session_id: self.session_id,
            raw_data: self.raw_data@,
            hash: self.hash,
        }
    }
}

impl Resource {
    /// Builds a resource record from its parts.
    pub fn new(name: Name, ty: Type, path: String, hash: u64, id: SessionID, raw: Vec<u8>) -> (r:
        Resource)
        ensures
            r@ == (ResourceV {
                ty: ty,
                path: path@,
                name: name@,
                session_id: id,
                raw_data: raw@,
                hash: hash,
            }),
    {
        Resource { path: path, name: name, session_id: id, ty: ty, raw_data: raw, hash: hash }
    }

    /// The raw bytes this resource holds.
    pub fn get_raw_data(&self) -> (r: &Vec<u8>)
        ensures
            r@ == self@.raw_data,
    {
        &self.raw_data
    }

    /// The content kind of the resource.
    pub fn get_type(&self) -> (r: Type)
        ensures
            r == self@.ty,
    {
        self.ty
    }

    /// Where this resource lives on disk.
    pub fn get_path(&self) -> (r: &String)
        ensures
            r@ == self@.path,
    {
        &self.path
    }

    /// The normalized name and package of the resource.
    pub fn get_name(&self) -> (r: &Name)
        ensures
            r@ == self@.name,
    {
        &self.name
    }

    /// The content hash, used as the resource's version identifier.
    pub fn get_hash(&self) -> (r: u64)
        ensures
            r == self@.hash,
    {
        self.hash
    }

    /// The id this resource was given for the current session.
    pub fn get_session_id(&self) -> (r: SessionID)
        ensures
            r == self@.session_id,
    {
        self.session_id
    }
}

/// The version metadata of one package: not read yet, or the loaded map.
/// An explicit state instead of a sentinel value, selected by matching.
#[derive(Debug)]
pub enum Metadata {
    NotLoaded,
    Loaded(MetaMap),
}

/// The mathematical value of a [`Metadata`].
pub enum MetadataV {
    NotLoaded,
    Loaded(Seq<(Seq<char>, u64)>),
}

impl View for Metadata {
    type V = MetadataV;

    open spec fn view(&self) -> MetadataV {
        match self {
            Metadata::NotLoaded => MetadataV::NotLoaded,
            Metadata::Loaded(m) => MetadataV::Loaded(m@),
        }
    }
}

/// The mathematical value of a [`Package`].
#[verifier::ext_equal]
pub struct PackageV {
    pub name: Seq<char>,
    pub path: Seq<char>,
    pub idx: u32,
    pub metadata: MetadataV,
    pub resources: Seq<(Seq<char>, Seq<char>)>,
}

/// A named, indexed partition of the resource namespace, corresponding to
/// one subdirectory of the store root. The metadata map and the id-to-path
/// index are filled lazily, on the first version check against the package.
#[derive(Debug)]
pub struct Package {
    pub name: String,
    pub path: String,
    pub idx: u32,
    pub metadata: Metadata,
    pub resources: Vec<(String, String)>,
}

impl View for Package {
    type V = PackageV;

    open spec fn view(&self) -> PackageV {
        PackageV {
            name: self.name@,
            path: self.path@,
            idx: self.idx,
            metadata: self.metadata@,
            resources: Seq::new(
                self.resources@.len(),
                |i: int| (self.resources@[i].0@, self.resources@[i].1@),
            ),
        }
    }
}

/// The value recorded under a key, searching from the most recent entry:
/// a later entry for the same key wins, as in a map that overwrites.
pub open spec fn str_assoc_last<V>(s: Seq<(Seq<char>, V)>, k: Seq<char>) -> Option<V>
    decreases s.len(),
{
    if s.len() == 0 {
        None
    } else if s.last().0 == k {
        Some(s.last().1)
    } else {
        str_assoc_last(s.drop_last(), k)
    }
}

/// A match at `i` with nothing after it settles `str_assoc_last`.
pub proof fn lemma_str_assoc_last_at<V>(s: Seq<(Seq<char>, V)>, k: Seq<char>, i: int)
    requires
        0 <= i < s.len(),
        s[i].0 == k,
        forall|j: int| i < j < s.len() ==> (#[trigger] s[j]).0 != k,
    ensures
        str_assoc_last(s, k) == Some(s[i].1),
    decreases s.len(),
{
    if i < s.len() - 1 {
        lemma_str_assoc_last_at(s.drop_last(), k, i);
    }
}

/// A key that no entry holds is not found.
pub proof fn lemma_str_assoc_last_none<V>(s: Seq<(Seq<char>, V)>, k: Seq<char>)
    requires
        forall|j: int| 0 <= j < s.len() ==> (#[trigger] s[j]).0 != k,
    ensures
        str_assoc_last(s, k) is None,
    decreases s.len(),
{
    if s.len() > 0 {
        lemma_str_assoc_last_none(s.drop_last(), k);
    }
}

/// The position of the most recently registered resource carrying the given
/// session id, or `-1` when the id is unknown.
pub open spec fn session_index(rs: Seq<ResourceV>, id: SessionID) -> int
    decreases rs.len(),
{
    if rs.len() == 0 {
        -1
    } else if rs.last().session_id == id {
        rs.len() - 1
    } else {
        session_index(rs.drop_last(), id)
    }
}

/// The most recently registered resource carrying the given session id.
pub open spec fn session_lookup(rs: Seq<ResourceV>, id: SessionID) -> Option<ResourceV> {
    if session_index(rs, id) >= 0 {
        Some(rs[session_index(rs, id)])
    } else {
        None
    }
}

/// A match at `i` with nothing after it settles `session_index`.
pub proof fn lemma_session_index_at(rs: Seq<ResourceV>, id: SessionID, i: int)
    requires
        0 <= i < rs.len(),
        rs[i].session_id == id,
        forall|j: int| i < j < rs.len() ==> (#[trigger] rs[j]).session_id != id,
    ensures
        session_index(rs, id) == i,
    decreases rs.len(),
{
    if i < rs.len() - 1 {
        lemma_session_index_at(rs.drop_last(), id, i);
    }
}

/// An id that no resource carries is not found.
pub proof fn lemma_session_index_none(rs: Seq<ResourceV>, id: SessionID)
    requires
        forall|j: int| 0 <= j < rs.len() ==> (#[trigger] rs[j]).session_id != id,
    ensures
        session_index(rs, id) == -1,
    decreases rs.len(),
{
    if rs.len() > 0 {
        lemma_session_index_none(rs.drop_last(), id);
    }
}

/// The position of the first name-index entry for `n`, or `-1`.
pub open spec fn name_index_of(nm: Seq<(NameV, int)>, n: NameV) -> int
    decreases nm.len(),
{
    if nm.len() == 0 {
        -1
    } else if nm[0].0 == n {
        0
    } else {
        let r = name_index_of(nm.drop_first(), n);
        if r < 0 {
            -1
        } else {
            r + 1
        }
    }
}

/// `name_index_of` finds exactly the first entry for the given name.
pub proof fn lemma_name_index_of(nm: Seq<(NameV, int)>, n: NameV)
    ensures
        name_index_of(nm, n) == -1 ==> forall|j: int|
            0 <= j < nm.len() ==> (#[trigger] nm[j]).0 != n,
        name_index_of(nm, n) != -1 ==> {
            &&& 0 <= name_index_of(nm, n) < nm.len()
            &&& nm[name_index_of(nm, n)].0 == n
            &&& forall|j: int| 0 <= j < name_index_of(nm, n) ==> (#[trigger] nm[j]).0 != n
        },
    decreases nm.len(),
{
    if nm.len() > 0 && nm[0].0 != n {
        lemma_name_index_of(nm.drop_first(), n);
        assert(forall|j: int| 1 <= j < nm.len() ==> (#[trigger] nm[j]).0 == nm.drop_first()[j - 1].0);
    }
}

/// A match at `i` with nothing before it settles `name_index_of`.
pub proof fn lemma_name_index_at(nm: Seq<(NameV, int)>, n: NameV, i: int)
    requires
        0 <= i < nm.len(),
        nm[i].0 == n,
        forall|j: int| 0 <= j < i ==> (#[trigger] nm[j]).0 != n,
    ensures
        name_index_of(nm, n) == i,
{
    lemma_name_index_of(nm, n);
    if name_index_of(nm, n) == -1 {
        assert(nm[i].0 != n);
    }
}

/// A name that no entry holds makes `name_index_of` come back empty.
pub proof fn lemma_name_index_none(nm: Seq<(NameV, int)>, n: NameV)
    requires
        forall|j: int| 0 <= j < nm.len() ==> (#[trigger] nm[j]).0 != n,
    ensures
        name_index_of(nm, n) == -1,
{
    lemma_name_index_of(nm, n);
}

/// The mathematical value of a [`Manager`].
#[verifier::ext_equal]
pub struct StoreV {
    pub directory: Seq<char>,
    pub packages: Seq<PackageV>,
    pub package_names: Seq<(Seq<char>, u32)>,
    pub resources: Seq<ResourceV>,
    pub names: Seq<(NameV, int)>,
    pub next_session_id: SessionID,
}

/// The well-formedness of a store:
/// - each package records its own position as its index;
/// - package-name entries point at existing packages;
/// - every session id already handed out lies below the allocator's next
///   value, which starts at 1, so 0 is never assigned;
/// - name-index entries point at existing resources carrying that name, and
///   no name is indexed twice;
/// - each loaded metadata map has distinct keys.
pub open spec fn store_wf(s: StoreV) -> bool {
    &&& s.packages.len() <= u32::MAX
    &&& forall|i: int| 0 <= i < s.packages.len() ==> (#[trigger] s.packages[i]).idx == i as u32
    &&& forall|i: int|
        0 <= i < s.package_names.len() ==> (#[trigger] s.package_names[i]).1 < s.packages.len()
    &&& s.next_session_id >= 1
    &&& forall|i: int|
        0 <= i < s.resources.len() ==> (#[trigger] s.resources[i]).session_id
            < s.next_session_id
    &&& forall|i: int|
        0 <= i < s.names.len() ==> {
            &&& 0 <= (#[trigger] s.names[i]).1 < s.resources.len()
            &&& s.resources[s.names[i].1].name == s.names[i].0
        }
    &&& forall|i: int, j: int|
        0 <= i < j < s.names.len() ==> (#[trigger] s.names[i]).0 != (#[trigger] s.names[j]).0
    &&& forall|i: int|
        0 <= i < s.packages.len() ==> match (#[trigger] s.packages[i]).metadata {
            MetadataV::Loaded(m) => meta_keys_distinct(m),
            MetadataV::NotLoaded => true,
        }
}

/// Holds loaded resource records and the package partition of one root
/// directory. Server side it is filled once by bulk loads and then read;
/// client side it is filled lazily as the handshake checks and creates
/// resources.
#[derive(Debug)]
pub struct Manager {
    directory: String,
    packages: Vec<Package>,
    package_name_map: Vec<(String, u32)>,
    resources: Vec<Resource>,
    name_map: Vec<(Name, usize)>,
    next_session_id: SessionID,
}

impl View for Manager {
    type V = StoreV;

    closed spec fn view(&self) -> StoreV {
        StoreV {
            directory: self.directory@,
            packages: Seq::new(self.packages@.len(), |i: int| self.packages@[i]@),
            package_names: Seq::new(
                self.package_name_map@.len(),
                |i: int| (self.package_name_map@[i].0@, self.package_name_map@[i].1),
            ),
            resources: Seq::new(self.resources@.len(), |i: int| self.resources@[i]@),
            names: Seq::new(
                self.name_map@.len(),
                |i: int| (self.name_map@[i].0@, self.name_map@[i].1 as int),
            ),
            next_session_id: self.next_session_id,
        }
    }
}

impl Manager {
    /// Store well-formedness; established by the constructor and preserved
    /// by every operation.
    pub open spec fn wf(&self) -> bool {
        store_wf(self@)
    }

    /// Creates a store over `directory`, one package per immediate
    /// subdirectory name in `entries`, in the given enumeration order.
    /// Package names are normalized; indices follow the enumeration order
    /// and stay stable for the store's lifetime. No resource file contents
    /// are read here.
    pub fn new(directory: &str, entries: Vec<String>) -> (r: Manager)
        requires
            entries@.len() <= u32::MAX,
        ensures
            r@.directory == directory@,
            r@.packages.len() == entries@.len(),
            forall|i: int|
                0 <= i < entries@.len() ==> (#[trigger] r@.packages[i]) == (PackageV {
                    name: simplify_chars(entries@[i]@),
                    path: directory@ + "/"@ + entries@[i]@,
                    idx: i as u32,
                    metadata: MetadataV::NotLoaded,
                    resources: Seq::empty(),
                }),
            r@.package_names.len() == entries@.len(),
            forall|i: int|
                0 <= i < entries@.len() ==> (#[trigger] r@.package_names[i]) == (
                simplify_chars(entries@[i]@), i as u32),
            r@.resources.len() == 0,
            r@.names.len() == 0,
            r@.next_session_id == 1,
            r.wf(),
    {
        let mut packages: Vec<Package> = Vec::new();
        let mut package_name_map: Vec<(String, u32)> = Vec::new();
        let n = entries.len();
        let mut i: usize = 0;
        while i < n
            invariant
                i <= n,
                n == entries@.len(),
                n <= u32::MAX,
                packages@.len() == i,
                package_name_map@.len() == i,
                forall|j: int|
                    0 <= j < i ==> (#[trigger] packages@[j])@ == (PackageV {
                        name: simplify_chars(entries@[j]@),
                        path: directory@ + "/"@ + entries@[j]@,
                        idx: j as u32,
                        metadata: MetadataV::NotLoaded,
                        resources: Seq::empty(),
                    }),
                forall|j: int|
                    0 <= j < i ==> (#[trigger] package_name_map@[j]).0@ == simplify_chars(
                        entries@[j]@,
                    ) && package_name_map@[j].1 == j as u32,
            decreases n - i,
        {
            let entry = &entries[i];
            let name = simplify_str(entry.as_str());
            let mut path = directory.to_owned();
            path.append("/");
            path.append(entry.as_str());
            let name_for_map = name.clone();
            let package = Package {
                name: name,
                path: path,
                idx: i as u32,
                metadata: Metadata::NotLoaded,
                resources: Vec::new(),
            };
            proof {
                assert(package@.resources =~= Seq::<(Seq<char>, Seq<char>)>::empty());
            }
            package_name_map.push((name_for_map, i as u32));
            packages.push(package);
            i += 1;
        }
        let r = Manager {
            directory: directory.to_owned(),
            packages: packages,
            package_name_map: package_name_map,
            resources: Vec::new(),
            name_map: Vec::new(),
            next_session_id: 1,
        };
        proof {
            assert(r@.resources =~= Seq::<ResourceV>::empty());
            assert(r@.names =~= Seq::<(NameV, int)>::empty());
            assert forall|j: int| 0 <= j < entries@.len() implies (#[trigger] r@.packages[j])
                == (PackageV {
                name: simplify_chars(entries@[j]@),
                path: directory@ + "/"@ + entries@[j]@,
                idx: j as u32,
                metadata: MetadataV::NotLoaded,
                resources: Seq::empty(),
            }) by {
                assert(r@.packages[j] == packages@[j]@);
                assert(packages@[j]@ =~= (PackageV {
                    name: simplify_chars(entries@[j]@),
                    path: directory@ + "/"@ + entries@[j]@,
                    idx: j as u32,
                    metadata: MetadataV::NotLoaded,
                    resources: Seq::empty(),
                }));
            };
        }
        r
    }

    /// All packages, in index order.
    pub fn packages(&self) -> (r: &Vec<Package>)
        ensures
            r@.len() == self@.packages.len(),
            forall|i: int| 0 <= i < r@.len() ==> (#[trigger] r@[i])@ == self@.packages[i],
    {
        &self.packages
    }

    /// The package at the given index.
    pub fn get_package(&self, package: u32) -> (r: &Package)
        requires
            package < self@.packages.len(),
        ensures
            r@ == self@.packages[package as int],
    {
        &self.packages[package as usize]
    }

    /// Resolves a package name (normalized first) to its index. When two
    /// directories normalized to the same name, the later one wins, as in
    /// the scan that built the map.
    pub fn package_name_to_idx(&self, package: &str) -> (r: Option<u32>)
        ensures
            r == str_assoc_last(self@.package_names, simplify_chars(package@)),
    {
        let key = simplify_str(package);
        let n = self.package_name_map.len();
        let mut i: usize = n;
        while i > 0
            invariant
                i <= n,
                n == self@.package_names.len(),
                key@ == simplify_chars(package@),
                forall|j: int| i <= j < n ==> (#[trigger] self@.package_names[j]).0 != key@,
            decreases i,
        {
            i -= 1;
            if str_eq(self.package_name_map[i].0.as_str(), key.as_str()) {
                let v = self.package_name_map[i].1;
                proof {
                    lemma_str_assoc_last_at(self@.package_names, key@, i as int);
                }
                return Some(v);
            }
        }
        proof {
            lemma_str_assoc_last_none(self@.package_names, key@);
        }
        None
    }

    /// All loaded resources, in registration order. The server reads this
    /// sequence to build the manifest it advertises.
    pub fn resources(&self) -> (r: &Vec<Resource>)
        ensures
            r@.len() == self@.resources.len(),
            forall|i: int| 0 <= i < r@.len() ==> (#[trigger] r@[i])@ == self@.resources[i],
    {
        &self.resources
    }

    /// The resource registered under the given session id, if any; when an
    /// id was registered more than once, the most recent record wins.
    pub fn get_resource(&self, session_id: SessionID) -> (r: Option<&Resource>)
        ensures
            match r {
                Some(res) => session_lookup(self@.resources, session_id) == Some(res@),
                None => session_lookup(self@.resources, session_id) is None,
            },
    {
        let n = self.resources.len();
        let mut i: usize = n;
        while i > 0
            invariant
                i <= n,
                n == self@.resources.len(),
                forall|j: int|
                    i <= j < n ==> (#[trigger] self@.resources[j]).session_id != session_id,
            decreases i,
        {
            i -= 1;
            if self.resources[i].get_session_id() == session_id {
                proof {
                    lemma_session_index_at(self@.resources, session_id, i as int);
                }
                return Some(&self.resources[i]);
            }
        }
        proof {
            lemma_session_index_none(self@.resources, session_id);
        }
        None
    }

    /// The resource registered under the given name, if the name index
    /// still holds it (a cleaned store no longer resolves names).
    pub fn get_resource_with_name(&self, name: &Name) -> (r: Option<&Resource>)
        requires
            self.wf(),
        ensures
            match r {
                Some(res) => {
                    &&& name_index_of(self@.names, name@) >= 0
                    &&& res@ == self@.resources[self@.names[name_index_of(self@.names, name@)].1]
                },
                None => name_index_of(self@.names, name@) == -1,
            },
    {
        let n = self.name_map.len();
        let mut i: usize = 0;
        while i < n
            invariant
                i <= n,
                n == self@.names.len(),
                self.wf(),
                forall|j: int| 0 <= j < i ==> (#[trigger] self@.names[j]).0 != name@,
            decreases n - i,
        {
            if self.name_map[i].0.eq_name(name) {
                proof {
                    lemma_name_index_at(self@.names, name@, i as int);
                }
                let idx = self.name_map[i].1;
                proof {
                    assert(self@.names[i as int].1 == idx as int);
                    assert(0 <= idx < self@.resources.len());
                }
                return Some(&self.resources[idx]);
            }
            i += 1;
        }
        proof {
            lemma_name_index_none(self@.names, name@);
        }
        None
    }

    /// Drops the package partition and the name index once loading is done,
    /// to shed memory used only during the discovery phase. The resource
    /// records themselves, and lookup by session id, stay.
    pub fn clean(&mut self)
        ensures
            final(self)@ == (StoreV {
                packages: Seq::empty(),
                package_names: Seq::empty(),
                names: Seq::empty(),
                ..old(self)@
            }),
            old(self).wf() ==> final(self).wf(),
    {
        self.packages = Vec::new();
        self.package_name_map = Vec::new();
        self.name_map = Vec::new();
        proof {
            assert(final(self)@ =~= (StoreV {
                packages: Seq::empty(),
                package_names: Seq::empty(),
                names: Seq::empty(),
                ..old(self)@
            }));
        }
    }
}

/// The name under which a file at `path` is registered: the normalized
/// file stem, scoped to the package.
pub open spec fn reg_name(path: Seq<char>, package: u32) -> NameV {
    NameV { id: simplify_chars(path_stem(path)), package: package }
}

/// Whether a file is reserved rather than a resource: its stem begins with
/// an underscore, as the metadata sidecar's does.
pub open spec fn reg_ignored(path: Seq<char>) -> bool {
    path_stem(path)[0] == '_'
}

/// The record built for a file at `path` with the given version, session id
/// and contents.
pub open spec fn reg_record(
    path: Seq<char>,
    package: u32,
    ver: u64,
    id: SessionID,
    data: Seq<u8>,
) -> ResourceV {
    ResourceV {
        ty: extension_type(path_ext(path)),
        path: path,
        name: reg_name(path, package),
        session_id: id,
        raw_data: data,
        hash: ver,
    }
}

/// The store after appending the record: the resource and its name-index
/// entry are added, and the allocator's next value is advanced past the id
/// just used.
pub open spec fn reg_store(
    s: StoreV,
    path: Seq<char>,
    package: u32,
    ver: u64,
    id: SessionID,
    data: Seq<u8>,
) -> StoreV {
    StoreV {
        resources: s.resources.push(reg_record(path, package, ver, id, data)),
        names: s.names.push((reg_name(path, package), s.resources.len() as int)),
        next_session_id: if s.next_session_id <= id {
            (id + 1) as u16
        } else {
            s.next_session_id
        },
        ..s
    }
}

/// One registration, the shared path all mutators funnel through: reserved
/// files are skipped with `Ignored`, a name registered twice is refused
/// with `ResourceWithNameAlreadyExists` and the store is left untouched,
/// and everything else is appended.
pub open spec fn new_resource_spec(
    s: StoreV,
    path: Seq<char>,
    package: u32,
    ver: u64,
    id: SessionID,
    data: Seq<u8>,
) -> (StoreV, Result<(), Error>) {
    if reg_ignored(path) {
        (s, Err(Error::Ignored))
    } else if name_index_of(s.names, reg_name(path, package)) >= 0 {
        (s, Err(Error::ResourceWithNameAlreadyExists))
    } else {
        (reg_store(s, path, package, ver, id, data), Ok(()))
    }
}

impl Manager {
    /// Registers one loaded file as a resource: derives the name from the
    /// file stem and the kind from the extension, refuses a duplicate name
    /// without touching the store, skips reserved (underscore) files, and
    /// advances the session-id allocator past `id`.
    pub fn new_resource(
        &mut self,
        path: String,
        package: u32,
        ver: u64,
        id: SessionID,
        data: Vec<u8>,
    ) -> (r: Result<(), Error>)
        requires
            path_stem(path@).len() > 0,
            id < u16::MAX,
        ensures
            final(self)@ == new_resource_spec(old(self)@, path@, package, ver, id, data@).0,
            r == new_resource_spec(old(self)@, path@, package, ver, id, data@).1,
            old(self).wf() ==> final(self).wf(),
    {
        let (stem, ext) = split_path(path.as_str());
        if stem.as_str().get_char(0) == '_' {
            return Err(Error::Ignored);
        }
        let name = Name::new(stem.as_str(), package);
        let n = self.name_map.len();
        let mut i: usize = 0;
        while i < n
            invariant
                i <= n,
                n == self@.names.len(),
                self == old(self),
                name@ == reg_name(path@, package),
                !reg_ignored(path@),
                forall|j: int| 0 <= j < i ==> (#[trigger] self@.names[j]).0 != name@,
            decreases n - i,
        {
            if self.name_map[i].0.eq_name(&name) {
                proof {
                    lemma_name_index_at(self@.names, name@, i as int);
                }
                return Err(Error::ResourceWithNameAlreadyExists);
            }
            i += 1;
        }
        proof {
            lemma_name_index_none(self@.names, name@);
        }
        let res_type = Type::from_extension(ext.as_str());
        let name_id_copy = name.id.clone();
        let idx = self.resources.len();
        let res = Resource::new(name, res_type, path, ver, id, data);
        self.name_map.push((Name { id: name_id_copy, package: package }, idx));
        self.resources.push(res);
        if self.next_session_id <= id {
            self.next_session_id = id + 1;
        }
        proof {
            let sp = new_resource_spec(old(self)@, path@, package, ver, id, data@);
            assert(final(self)@.resources =~= sp.0.resources);
            assert(final(self)@.names =~= sp.0.names);
            assert(final(self)@.packages =~= sp.0.packages);
            assert(final(self)@.package_names =~= sp.0.package_names);
            assert(final(self)@ =~= sp.0);
            if old(self).wf() {
                assert(final(self).wf());
            }
        }
        Ok(())
    }

    /// Adds a new, empty package under the store root, with a fresh loaded
    /// metadata map, and returns its index. The name is recorded as given.
    pub fn create_package(&mut self, name: String) -> (r: u32)
        requires
            old(self)@.packages.len() < u32::MAX,
        ensures
            r == old(self)@.packages.len() as u32,
            final(self)@ == (StoreV {
                packages: old(self)@.packages.push(
                    PackageV {
                        name: name@,
                        path: old(self)@.directory + "/"@ + name@,
                        idx: old(self)@.packages.len() as u32,
                        metadata: MetadataV::Loaded(Seq::empty()),
                        resources: Seq::empty(),
                    },
                ),
                package_names: old(self)@.package_names.push(
                    (name@, old(self)@.packages.len() as u32),
                ),
                ..old(self)@
            }),
            old(self).wf() ==> final(self).wf(),
    {
        let mut dir = self.directory.clone();
        dir.append("/");
        dir.append(name.as_str());
        let pidx = self.packages.len() as u32;
        let map_name = name.clone();
        let package = Package {
            name: name,
            path: dir,
            idx: pidx,
            metadata: Metadata::Loaded(MetaMap::new()),
            resources: Vec::new(),
        };
        self.package_name_map.push((map_name, pidx));
        self.packages.push(package);
        proof {
            assert(final(self)@ =~~= (StoreV {
                packages: old(self)@.packages.push(
                    PackageV {
                        name: name@,
                        path: old(self)@.directory + "/"@ + name@,
                        idx: old(self)@.packages.len() as u32,
                        metadata: MetadataV::Loaded(Seq::empty()),
                        resources: Seq::empty(),
                    },
                ),
                package_names: old(self)@.package_names.push(
                    (name@, old(self)@.packages.len() as u32),
                ),
                ..old(self)@
            }));
            if old(self).wf() {
                assert(final(self).wf());
            }
        }
        pidx
    }
}

/// The views of a sequence of owned strings.
pub open spec fn strings_view(v: Seq<String>) -> Seq<Seq<char>> {
    Seq::new(v.len(), |i: int| v[i]@)
}

/// The id-to-path entries a directory scan adds: each file indexed under
/// its normalized stem, in scan order.
pub open spec fn scan_entries(paths: Seq<Seq<char>>) -> Seq<(Seq<char>, Seq<char>)> {
    Seq::new(paths.len(), |i: int| (simplify_chars(path_stem(paths[i])), paths[i]))
}

/// The views of a sequence of loaded files: path and contents.
pub open spec fn files_view(v: Seq<(String, Vec<u8>)>) -> Seq<(Seq<char>, Seq<u8>)> {
    Seq::new(v.len(), |i: int| (v[i].0@, v[i].1@))
}

/// Bulk registration of loaded files, in order. Each file gets the next
/// session id and its content hash as version; reserved files are skipped;
/// the first other failure stops the load, keeping what was registered
/// before it.
pub open spec fn load_files(s: StoreV, package: u32, files: Seq<(Seq<char>, Seq<u8>)>) -> (
    StoreV,
    Result<(), Error>,
)
    decreases files.len(),
{
    if files.len() == 0 {
        (s, Ok(()))
    } else {
        let step = new_resource_spec(
            s,
            files[0].0,
            package,
            hash_spec(files[0].1),
            s.next_session_id,
            files[0].1,
        );
        match step.1 {
            Ok(u) => load_files(step.0, package, files.drop_first()),
            Err(e) => match e {
                Error::Ignored => load_files(step.0, package, files.drop_first()),
                _ => (step.0, Err(e)),
            },
        }
    }
}

/// The store after a resource is created in a package: the version map of
/// that package records the id, and the written file is registered.
pub open spec fn create_resource_spec(
    s: StoreV,
    resv: NameV,
    ty: Type,
    ver: u64,
    id: SessionID,
    data: Seq<u8>,
) -> (StoreV, Result<(), Error>)
    recommends
        resv.package < s.packages.len(),
{
    let pkg = s.packages[resv.package as int];
    let path = pkg.path + "/"@ + resv.id + "."@ + type_extension(ty);
    if reg_ignored(path) {
        (s, Err(Error::Ignored))
    } else if name_index_of(s.names, reg_name(path, resv.package)) >= 0 {
        (s, Err(Error::ResourceWithNameAlreadyExists))
    } else {
        let m0 = match pkg.metadata {
            MetadataV::Loaded(m) => m,
            MetadataV::NotLoaded => Seq::empty(),
        };
        let s1 = StoreV {
            packages: s.packages.update(
                resv.package as int,
                PackageV { metadata: MetadataV::Loaded(meta_set(m0, resv.id, ver)), ..pkg },
            ),
            ..s
        };
        (reg_store(s1, path, resv.package, ver, id, data), Ok(()))
    }
}

impl Manager {
    /// Whether a package still awaits its lazy directory scan: nothing is
    /// in its id-to-path index yet.
    pub fn needs_scan(&self, package: u32) -> (r: bool)
        requires
            package < self@.packages.len(),
        ensures
            r == (self@.packages[package as int].resources.len() == 0),
    {
        self.packages[package as usize].resources.len() == 0
    }

    /// Installs the lazy scan of one package: parses the sidecar text into
    /// the version map (kept as already loaded if an earlier scan loaded
    /// it), then indexes every scanned file path under its normalized stem.
    /// A malformed sidecar fails with `Json` and changes nothing.
    pub fn scan_resources(&mut self, package: u32, metadata_text: &str, entry_paths: Vec<String>) -> (r:
        Result<(), Error>)
        requires
            package < old(self)@.packages.len(),
        ensures
            ({
                let pkg = old(self)@.packages[package as int];
                let needs = pkg.metadata is NotLoaded;
                if needs && parse_meta(metadata_text@) is None {
                    &&& final(self)@ == old(self)@
                    &&& r == Err::<(), Error>(Error::Json)
                } else {
                    let m2 = if needs {
                        MetadataV::Loaded(parse_meta(metadata_text@).unwrap())
                    } else {
                        pkg.metadata
                    };
                    &&& final(self)@ == (StoreV {
                        packages: old(self)@.packages.update(
                            package as int,
                            PackageV {
                                metadata: m2,
                                resources: pkg.resources + scan_entries(
                                    strings_view(entry_paths@),
                                ),
                                ..pkg
                            },
                        ),
                        ..old(self)@
                    })
                    &&& r == Ok::<(), Error>(())
                }
            }),
            old(self).wf() ==> final(self).wf(),
    {
        let pidx = package as usize;
        let needs = match &self.packages[pidx].metadata {
            Metadata::NotLoaded => true,
            Metadata::Loaded(_) => false,
        };
        if needs {
            match parse_metadata(metadata_text) {
                None => {
                    return Err(Error::Json);
                },
                Some(m) => {
                    let pkg_ref = vec_index_mut(&mut self.packages, pidx);
                    pkg_ref.metadata = Metadata::Loaded(m);
                },
            }
        }
        let ghost mid = self@;
        let ghost pkg0 = old(self)@.packages[package as int];
        let ghost m2 = mid.packages[package as int].metadata;
        proof {
            assert(mid.packages =~~= old(self)@.packages.update(
                package as int,
                PackageV { metadata: m2, ..pkg0 },
            ));
        }
        let mut scanned: Vec<(String, String)> = Vec::new();
        let n = entry_paths.len();
        let mut i: usize = 0;
        while i < n
            invariant
                i <= n,
                n == entry_paths@.len(),
                scanned@.len() == i,
                forall|j: int|
                    0 <= j < i ==> ((#[trigger] scanned@[j]).0@, scanned@[j].1@)
                        == scan_entries(strings_view(entry_paths@))[j],
            decreases n - i,
        {
            let parts = split_path(entry_paths[i].as_str());
            let key = simplify_str(parts.0.as_str());
            let path_copy = entry_paths[i].clone();
            scanned.push((key, path_copy));
            i += 1;
        }
        let pkg_ref = vec_index_mut(&mut self.packages, pidx);
        pkg_ref.resources.append(&mut scanned);
        proof {
            assert(final(self)@.packages[package as int].resources =~~= pkg0.resources
                + scan_entries(strings_view(entry_paths@)));
            assert(final(self)@ =~~= (StoreV {
                packages: old(self)@.packages.update(
                    package as int,
                    PackageV {
                        metadata: m2,
                        resources: pkg0.resources + scan_entries(strings_view(entry_paths@)),
                        ..pkg0
                    },
                ),
                ..old(self)@
            }));
            if old(self).wf() {
                assert(final(self).wf());
            }
        }
        Ok(())
    }

    /// The client-side version gate: looks up the version the sidecar
    /// records for the name; when it is absent or differs from
    /// `version_id`, fails with `IncorrectVersion` before any resource file
    /// is touched, and does not register anything. When it matches, resolves
    /// the file path the resource must be read from; an id that the scan
    /// did not index fails with `ResourceDoesNotExist`.
    pub fn check_resource(&self, res: &Name, version_id: u64) -> (r: Result<String, Error>)
        ensures
            ({
                let valid = res@.package < self@.packages.len();
                let pkg = self@.packages[res@.package as int];
                match r {
                    Ok(path) => {
                        &&& valid
                        &&& pkg.metadata matches MetadataV::Loaded(m) && meta_lookup(m, res@.id)
                            == Some(version_id)
                        &&& str_assoc_last(pkg.resources, res@.id) == Some(path@)
                    },
                    Err(e) => match e {
                        Error::InvalidPackage => !valid,
                        Error::IncorrectVersion => valid && match pkg.metadata {
                            MetadataV::NotLoaded => true,
                            MetadataV::Loaded(m) => meta_lookup(m, res@.id) != Some(version_id),
                        },
                        Error::ResourceDoesNotExist => {
                            &&& valid
                            &&& pkg.metadata matches MetadataV::Loaded(m) && meta_lookup(
                                m,
                                res@.id,
                            ) == Some(version_id)
                            &&& str_assoc_last(pkg.resources, res@.id) is None
                        },
                        _ => false,
                    },
                }
            }),
    {
        let p = res.package as usize;
        if p >= self.packages.len() {
            return Err(Error::InvalidPackage);
        }
        match &self.packages[p].metadata {
            Metadata::NotLoaded => Err(Error::IncorrectVersion),
            Metadata::Loaded(m) => {
                match m.get(res.id.as_str()) {
                    None => Err(Error::IncorrectVersion),
                    Some(v) => {
                        if v != version_id {
                            return Err(Error::IncorrectVersion);
                        }
                        let index = &self.packages[p].resources;
                        let n = index.len();
                        let mut i: usize = n;
                        while i > 0
                            invariant
                                i <= n,
                                p == res.package as usize,
                                res@.package < self@.packages.len(),
                                self@.packages[res@.package as int].metadata matches
                                    MetadataV::Loaded(mm) && meta_lookup(mm, res@.id) == Some(
                                    version_id,
                                ),
                                n == self@.packages[res@.package as int].resources.len(),
                                forall|j: int|
                                    i <= j < n ==> (#[trigger] self@.packages[res@.package as int].resources[j]).0
                                        != res@.id,
                            decreases i,
                        {
                            i -= 1;
                            if str_eq(self.packages[p].resources[i].0.as_str(), res.id.as_str()) {
                                let path = self.packages[p].resources[i].1.clone();
                                proof {
                                    lemma_str_assoc_last_at(
                                        self@.packages[res@.package as int].resources,
                                        res@.id,
                                        i as int,
                                    );
                                }
                                return Ok(path);
                            }
                        }
                        proof {
                            lemma_str_assoc_last_none(
                                self@.packages[res@.package as int].resources,
                                res@.id,
                            );
                        }
                        Err(Error::ResourceDoesNotExist)
                    },
                }
            },
        }
    }

    /// Creates a resource from bytes received over the wire: derives the
    /// file path from the package directory, the id and the extension for
    /// the kind; refuses a duplicate name without touching anything;
    /// records the caller-supplied version in the package's version map
    /// (starting a fresh map if none was loaded); and registers the
    /// resource under the caller-supplied session id. The caller persists
    /// the bytes and the updated sidecar at the paths the store reports.
    pub fn create_resource(
        &mut self,
        res: Name,
        res_type: Type,
        version_id: u64,
        id: SessionID,
        data: Vec<u8>,
    ) -> (r: Result<(), Error>)
        requires
            res@.package < old(self)@.packages.len(),
            id < u16::MAX,
        ensures
            final(self)@ == create_resource_spec(
                old(self)@,
                res@,
                res_type,
                version_id,
                id,
                data@,
            ).0,
            r == create_resource_spec(old(self)@, res@, res_type, version_id, id, data@).1,
            old(self).wf() ==> final(self).wf(),
    {
        let p = res.package as usize;
        let mut filepath = self.packages[p].path.clone();
        filepath.append("/");
        filepath.append(res.id.as_str());
        filepath.append(".");
        filepath.append(res_type.get_extension());
        proof {
            reveal_strlit("what");
            reveal_strlit("lua");
            assert(filepath@.last() != '/');
            crate::util::lemma_path_stem_nonempty(filepath@);
        }
        let parts = split_path(filepath.as_str());
        if parts.0.as_str().get_char(0) == '_' {
            return Err(Error::Ignored);
        }
        let regname = Name::new(parts.0.as_str(), res.package);
        let n = self.name_map.len();
        let mut i: usize = 0;
        while i < n
            invariant
                i <= n,
                n == self@.names.len(),
                self == old(self),
                res@.package < self@.packages.len(),
                filepath@ == self@.packages[res@.package as int].path + "/"@ + res@.id + "."@
                    + type_extension(res_type),
                regname@ == reg_name(filepath@, res@.package),
                !reg_ignored(filepath@),
                forall|j: int| 0 <= j < i ==> (#[trigger] self@.names[j]).0 != regname@,
            decreases n - i,
        {
            if self.name_map[i].0.eq_name(&regname) {
                proof {
                    lemma_name_index_at(self@.names, regname@, i as int);
                }
                return Err(Error::ResourceWithNameAlreadyExists);
            }
            i += 1;
        }
        proof {
            lemma_name_index_none(self@.names, regname@);
        }
        let ghost s0 = self@;
        let loaded = match &self.packages[p].metadata {
            Metadata::Loaded(_) => true,
            Metadata::NotLoaded => false,
        };
        if loaded {
            let pkg_ref = vec_index_mut(&mut self.packages, p);
            match &mut pkg_ref.metadata {
                Metadata::Loaded(m) => {
                    m.set(res.id.as_str(), version_id);
                },
                Metadata::NotLoaded => {},
            }
        } else {
            let mut mm = MetaMap::new();
            mm.set(res.id.as_str(), version_id);
            let pkg_ref = vec_index_mut(&mut self.packages, p);
            pkg_ref.metadata = Metadata::Loaded(mm);
        }
        let ghost spec_mid = (StoreV {
            packages: s0.packages.update(
                res@.package as int,
                PackageV {
                    metadata: MetadataV::Loaded(
                        meta_set(
                            match s0.packages[res@.package as int].metadata {
                                MetadataV::Loaded(m) => m,
                                MetadataV::NotLoaded => Seq::empty(),
                            },
                            res@.id,
                            version_id,
                        ),
                    ),
                    ..s0.packages[res@.package as int]
                },
            ),
            ..s0
        });
        proof {
            assert(self@ =~~= spec_mid);
        }
        let r = self.new_resource(filepath, res.package, version_id, id, data);
        proof {
            assert(r == Ok::<(), Error>(()));
        }
        r
    }

    /// Bulk-loads a package, the server-side path: registers every loaded
    /// file under the next session id with its content hash as version.
    /// Files whose stem starts with an underscore are reserved and are
    /// silently skipped, not an error; any other registration failure stops
    /// the load and is returned, keeping what was already registered.
    pub fn load_package(&mut self, package: u32, files: Vec<(String, Vec<u8>)>) -> (r: Result<
        (),
        Error,
    >)
        requires
            forall|i: int| 0 <= i < files@.len() ==> path_stem((#[trigger] files@[i]).0@).len() > 0,
            old(self)@.next_session_id + files@.len() <= u16::MAX,
        ensures
            package as int >= old(self)@.packages.len() ==> {
                &&& final(self)@ == old(self)@
                &&& r == Err::<(), Error>(Error::InvalidPackage)
            },
            (package as int) < old(self)@.packages.len() ==> {
                &&& final(self)@ == load_files(old(self)@, package, files_view(files@)).0
                &&& r == load_files(old(self)@, package, files_view(files@)).1
            },
            old(self).wf() ==> final(self).wf(),
    {
        if (package as usize) >= self.packages.len() {
            return Err(Error::InvalidPackage);
        }
        let mut pending = files;
        let ghost fv0 = files_view(pending@);
        while pending.len() > 0
            invariant
                (package as int) < old(self)@.packages.len(),
                fv0 == files_view(files@),
                load_files(old(self)@, package, fv0) == load_files(
                    self@,
                    package,
                    files_view(pending@),
                ),
                self@.next_session_id + pending@.len() <= u16::MAX,
                forall|i: int|
                    0 <= i < pending@.len() ==> path_stem((#[trigger] pending@[i]).0@).len() > 0,
                old(self).wf() ==> self.wf(),
            decreases pending@.len(),
        {
            let ghost s_before = self@;
            let ghost pv_before = files_view(pending@);
            let (path, data) = pending.remove(0);
            proof {
                assert(files_view(pending@) =~= pv_before.drop_first());
                assert(pv_before[0] == (path@, data@));
                assert(path_stem(path@).len() > 0);
            }
            let id = self.next_session_id;
            let h = hash(&data);
            let ghost step = new_resource_spec(s_before, path@, package, h, id, data@);
            match self.new_resource(path, package, h, id, data) {
                Ok(_) => {
                    proof {
                        assert(load_files(s_before, package, pv_before) == load_files(
                            self@,
                            package,
                            files_view(pending@),
                        ));
                    }
                },
                Err(e) => {
                    match e {
                        Error::Ignored => {
                            proof {
                                assert(self@ == s_before);
                                assert(load_files(s_before, package, pv_before) == load_files(
                                    self@,
                                    package,
                                    files_view(pending@),
                                ));
                            }
                        },
                        _ => {
                            proof {
                                assert(step.1 == Err::<(), Error>(e));
                                assert(load_files(s_before, package, pv_before) == (
                                    self@,
                                    Err::<(), Error>(e),
                                ));
                            }
                            return Err(e);
                        },
                    }
                },
            }
        }
        proof {
            assert(files_view(pending@).len() == 0);
            assert(load_files(self@, package, files_view(pending@)) == (self@, Ok::<(), Error>(
                (),
            )));
        }
        Ok(())
    }
}

/// The allocator's next id is carried by no registered resource, so an id
/// it assigns is strictly new within the store.
pub proof fn lemma_next_session_id_fresh(s: StoreV)
    requires
        store_wf(s),
    ensures
        forall|i: int|
            0 <= i < s.resources.len() ==> (#[trigger] s.resources[i]).session_id
                != s.next_session_id,
{
}

/// Registering under an explicit id `k` pushes the allocator's next value
/// strictly past `k`.
pub proof fn lemma_allocator_advances(
    s: StoreV,
    path: Seq<char>,
    package: u32,
    ver: u64,
    id: SessionID,
    data: Seq<u8>,
)
    requires
        id < u16::MAX,
    ensures
        reg_store(s, path, package, ver, id, data).next_session_id > id,
{
}

/// A registered resource is retrievable both under its session id and
/// under its name, and hands back exactly the bytes it was given.
pub proof fn lemma_register_round_trip(
    s: StoreV,
    path: Seq<char>,
    package: u32,
    ver: u64,
    id: SessionID,
    data: Seq<u8>,
)
    requires
        store_wf(s),
        id < u16::MAX,
        name_index_of(s.names, reg_name(path, package)) == -1,
    ensures
        ({
            let s2 = reg_store(s, path, package, ver, id, data);
            let rec = reg_record(path, package, ver, id, data);
            &&& session_lookup(s2.resources, id) == Some(rec)
            &&& name_index_of(s2.names, reg_name(path, package)) == s.names.len()
            &&& s2.resources[s2.names[name_index_of(s2.names, reg_name(path, package))].1] == rec
            &&& rec.raw_data == data
        }),
{
    let s2 = reg_store(s, path, package, ver, id, data);
    let rec = reg_record(path, package, ver, id, data);
    lemma_session_index_at(s2.resources, id, s.resources.len() as int);
    lemma_name_index_of(s.names, reg_name(path, package));
    lemma_name_index_at(s2.names, reg_name(path, package), s.names.len() as int);
}

/// A load that sees only reserved files registers nothing and succeeds:
/// the store comes back unchanged.
pub proof fn lemma_load_skips_reserved(s: StoreV, package: u32, files: Seq<(Seq<char>, Seq<u8>)>)
    requires
        forall|i: int| 0 <= i < files.len() ==> reg_ignored((#[trigger] files[i]).0),
    ensures
        load_files(s, package, files) == (s, Ok::<(), Error>(())),
    decreases files.len(),
{
    if files.len() > 0 {
        lemma_load_skips_reserved(s, package, files.drop_first());
    }
}

} // verus!
