use vstd::prelude::*;
use vstd::string::*;
use crate::humanize::{format_last_modified, format_size, spec_format_last_modified, spec_format_size};

verus! {

/// Removal lifecycle of a folder entry:
/// `Pending -> InProgress -> (Completed | Failed)`.
#[derive(Clone, Copy, Debug, PartialEq, Eq, Structural)]
pub enum ProcessStatus {
    Pending,
    Completed,
    InProgress,
    Failed,
}

impl Default for ProcessStatus {
    fn default() -> (r: ProcessStatus)
        ensures
            r == ProcessStatus::Pending,
    {
        ProcessStatus::Pending
    }
}

impl ProcessStatus {
    /// `Completed` and `Failed` are terminal.
    pub open spec fn is_terminal(self) -> bool {
        self == ProcessStatus::Completed || self == ProcessStatus::Failed
    }

    /// The transitions the lifecycle allows after the first one.
    pub open spec fn may_finish(from: ProcessStatus, to: ProcessStatus) -> bool {
        from == ProcessStatus::InProgress && to.is_terminal()
    }
}

/// Relies on uuid::Uuid::new_v4 (and Uuid::as_u128): a fresh random identifier.
/// Nothing is promised of its value.
#[verifier::external_body]
fn fresh_id() -> (r: u128) {
    uuid::Uuid::new_v4().as_u128()
}

/// One discovered artifact directory.
///
/// `size` (bytes) and `last_modified` (seconds since the last modification)
/// start unknown; `set_size` and `set_last_modified` fill each at most once.
/// An age that cannot be measured stays unknown rather than reading as zero.
#[derive(Clone, Debug, PartialEq, Eq)]
pub struct FolderInfo {
    pub id: u128,
    pub path: String,
    pub removal_status: ProcessStatus,
    pub size: Option<u64>,
    pub last_modified: Option<u64>,
}

impl FolderInfo {
    pub open spec fn size_view(&self) -> Option<u64> {
        self.size
    }

    pub open spec fn last_modified_view(&self) -> Option<u64> {
        self.last_modified
    }

    /// A new entry for `path`: pending, with both measurements unknown.
    pub fn new(path: String) -> (r: FolderInfo)
        ensures
            r.path@ == path@,
            r.removal_status == ProcessStatus::Pending,
            r.size_view() is None,
            r.last_modified_view() is None,
    {
        FolderInfo::with_id(fresh_id(), path)
    }

    /// A new entry with a caller-chosen identifier.
    pub fn with_id(id: u128, path: String) -> (r: FolderInfo)
        ensures
            r.id == id,
            r.path@ == path@,
            r.removal_status == ProcessStatus::Pending,
            r.size_view() is None,
            r.last_modified_view() is None,
    {
        FolderInfo { id, path, removal_status: ProcessStatus::Pending, size: None, last_modified: None }
    }

    pub fn path_string(&self) -> (r: String)
        ensures
            r@ == self.path@,
    {
        self.path.clone()
    }

    pub fn size(&self) -> (r: Option<u64>)
        ensures
            r == self.size_view(),
    {
        self.size
    }

    pub fn last_modified(&self) -> (r: Option<u64>)
        ensures
            r == self.last_modified_view(),
    {
        self.last_modified
    }

    /// The size as text, once known.
    pub fn human_size(&self) -> (r: Option<String>)
        ensures
            match self.size {
                Some(n) => r is Some && r.unwrap()@ == spec_format_size(n as nat),
                None => r is None,
            },
    {
        match self.size {
            Some(n) => Some(format_size(n)),
            None => None,
        }
    }

    /// The age as text, once known.
    pub fn human_last_modified(&self) -> (r: Option<String>)
        ensures
            match self.last_modified {
                Some(n) => r is Some && r.unwrap()@ == spec_format_last_modified(n as nat),
                None => r is None,
            },
    {
        match self.last_modified {
            Some(n) => Some(format_last_modified(n)),
            None => None,
        }
    }

    /// Records the size unless it is already known; returns whether it was recorded.
    pub fn set_size(&mut self, bytes: u64) -> (r: bool)
        ensures
            r == (old(self).size_view() is None),
            final(self).size_view() == (if r { Some(bytes) } else { old(self).size_view() }),
            final(self).last_modified_view() == old(self).last_modified_view(),
            final(self).id == old(self).id,
            final(self).path == old(self).path,
            final(self).removal_status == old(self).removal_status,
    {
        if self.size.is_none() {
            self.size = Some(bytes);
            true
        } else {
            false
        }
    }

    /// Records the age unless it is already known; returns whether it was recorded.
    pub fn set_last_modified(&mut self, secs: u64) -> (r: bool)
        ensures
            r == (old(self).last_modified_view() is None),
            final(self).last_modified_view() == (if r { Some(secs) } else {
                old(self).last_modified_view()
            }),
            final(self).size_view() == old(self).size_view(),
            final(self).id == old(self).id,
            final(self).path == old(self).path,
            final(self).removal_status == old(self).removal_status,
    {
        if self.last_modified.is_none() {
            self.last_modified = Some(secs);
            true
        } else {
            false
        }
    }
}

/// The prefix that makes a marker an extension rule (`ext:py`).
pub open spec fn ext_prefix() -> Seq<char> {
    seq!['e', 'x', 't', ':']
}

pub open spec fn is_ext_marker(m: Seq<char>) -> bool {
    m.len() >= 4 && m.subrange(0, 4) == ext_prefix()
}

/// `name`'s extension, the part after its last dot, is `ext`; a leading dot
/// starts no extension, and `..` has none.
pub open spec fn has_extension(name: Seq<char>, ext: Seq<char>) -> bool {
    let k = name.len() - ext.len() - 1;
    &&& name != seq!['.', '.']
    &&& 0 < k
    &&& name[k] == '.'
    &&& name.subrange(k + 1, name.len() as int) == ext
    &&& forall|j: int| 0 <= j < ext.len() ==> ext[j] != '.'
}

/// A marker rule matches a directory whose immediate entries are `listing`.
pub open spec fn marker_matches(m: Seq<char>, listing: Seq<Seq<char>>) -> bool {
    if is_ext_marker(m) {
        exists|i: int| 0 <= i < listing.len() && has_extension(listing[i], m.skip(4))
    } else {
        exists|i: int| 0 <= i < listing.len() && listing[i] == m
    }
}

/// The views of a list of strings.
pub open spec fn names_of(v: Seq<String>) -> Seq<Seq<char>> {
    v.map_values(|s: String| s@)
}

/// How to recognise one kind of project, and which of its directories are
/// build artifacts.
#[derive(Clone, Debug)]
pub struct TargetInfo {
    pub name: String,
    pub markers: Vec<String>,
    pub artifacts: Vec<String>,
}

impl TargetInfo {
    /// A directory whose immediate entries are `listing` is a project root.
    pub open spec fn spec_is_project_root(&self, listing: Seq<Seq<char>>) -> bool {
        exists|j: int| 0 <= j < self.markers@.len() && marker_matches(self.markers@[j]@, listing)
    }

    /// `name` is one of the artifact directory names.
    pub open spec fn spec_is_artifact(&self, name: Seq<char>) -> bool {
        exists|j: int| 0 <= j < self.artifacts@.len() && self.artifacts@[j]@ == name
    }

    /// Whether a directory whose immediate entries are named `listing` is a
    /// project root of this kind: some marker names one of the entries, or
    /// some `ext:X` marker finds an entry with extension `X`.
    pub fn is_project_root(&self, listing: &Vec<String>) -> (r: bool)
        ensures
            r == self.spec_is_project_root(names_of(listing@)),
    {
        let mut j: usize = 0;
        while j < self.markers.len()
            invariant
                j <= self.markers@.len(),
                forall|jj: int| 0 <= jj < j ==> !marker_matches(self.markers@[jj]@, names_of(listing@)),
            decreases self.markers@.len() - j,
        {
            if marker_matches_listing(&self.markers[j], listing) {
                return true;
            }
            j += 1;
        }
        false
    }

    pub fn is_artifact(&self, name: &String) -> (r: bool)
        ensures
            r == self.spec_is_artifact(name@),
    {
        let mut j: usize = 0;
        while j < self.artifacts.len()
            invariant
                j <= self.artifacts@.len(),
                forall|jj: int| 0 <= jj < j ==> self.artifacts@[jj]@ != name@,
            decreases self.artifacts@.len() - j,
        {
            if self.artifacts[j] == *name {
                return true;
            }
            j += 1;
        }
        false
    }
}

fn is_ext_marker_exec(m: &String) -> (r: bool)
    ensures
        r == is_ext_marker(m@),
{
    let s = m.as_str();
    if s.unicode_len() < 4 {
        return false;
    }
    let ok = s.get_char(0) == 'e' && s.get_char(1) == 'x' && s.get_char(2) == 't' && s.get_char(3) == ':';
    assert(ok == (m@.subrange(0, 4) =~= ext_prefix()));
    ok
}

/// `name` has the extension that the marker holds after its first `skip` characters.
fn has_extension_exec(name: &String, m: &String, skip: usize) -> (r: bool)
    requires
        skip <= m@.len(),
    ensures
        r == has_extension(name@, m@.skip(skip as int)),
{
    let n = name.as_str();
    let e = m.as_str();
    let nl = n.unicode_len();
    let el = e.unicode_len();
    let ghost ext = m@.skip(skip as int);
    let xl = el - skip;
    if nl == 2 && n.get_char(0) == '.' && n.get_char(1) == '.' {
        assert(name@ =~= seq!['.', '.']);
        return false;
    }
    if nl <= xl || nl - xl <= 1 {
        return false;
    }
    let k = nl - xl - 1;
    if n.get_char(k) != '.' {
        return false;
    }
    let mut i: usize = 0;
    while i < xl
        invariant
            nl == name@.len(),
            n@ == name@,
            e@ == m@,
            el == m@.len(),
            skip <= el,
            xl == el - skip,
            k == nl - xl - 1,
            ext == m@.skip(skip as int),
            i <= xl,
            forall|j: int| 0 <= j < i ==> name@[k + 1 + j] == ext[j] && ext[j] != '.',
        decreases xl - i,
    {
        let c = e.get_char(skip + i);
        if c == '.' || n.get_char(k + 1 + i) != c {
            assert(!(name@.subrange(k + 1, name@.len() as int) =~= ext) || ext[i as int] == '.');
            return false;
        }
        i += 1;
    }
    assert(name@ != seq!['.', '.']) by {
        if name@ =~= seq!['.', '.'] {
            assert(name@[0] == '.' && name@[1] == '.');
        }
    }
    assert(name@.subrange(k + 1, name@.len() as int) =~= ext);
    true
}

fn marker_matches_listing(m: &String, listing: &Vec<String>) -> (r: bool)
    ensures
        r == marker_matches(m@, names_of(listing@)),
{
    let ext = is_ext_marker_exec(m);
    let mut i: usize = 0;
    while i < listing.len()
        invariant
            i <= listing@.len(),
            ext == is_ext_marker(m@),
            ext ==> m@.len() >= 4,
            forall|ii: int|
                0 <= ii < i ==> if ext {
                    !has_extension(listing@[ii]@, m@.skip(4))
                } else {
                    listing@[ii]@ != m@
                },
        decreases listing@.len() - i,
    {
        let hit = if ext {
            has_extension_exec(&listing[i], m, 4)
        } else {
            listing[i] == *m
        };
        if hit {
            assert(names_of(listing@)[i as int] == listing@[i as int]@);
            return true;
        }
        i += 1;
    }
    assert forall|ii: int| 0 <= ii < names_of(listing@).len() implies names_of(listing@)[ii]
        == listing@[ii]@ by {}
    false
}

} // verus!
