use vstd::prelude::*;

use crate::sql::ast::opt_str_view;
use crate::text::{chars_vec, starts_with};

verus! {

/// The position of the last `c` in `s`.
pub open spec fn last_index_of(s: Seq<char>, c: char) -> Option<int>
    decreases s.len(),
{
    if s.len() == 0 {
        None
    } else if s.last() == c {
        Some(s.len() - 1)
    } else {
        last_index_of(s.drop_last(), c)
    }
}

/// The extension of a file name: what follows its last `.`, unless the name has no `.`
/// or its only `.` is the first character.
pub open spec fn name_extension(name: Seq<char>) -> Option<Seq<char>> {
    match last_index_of(name, '.') {
        None => None,
        Some(k) => if k == 0 {
            None
        } else {
            Some(name.subrange(k + 1, name.len() as int))
        },
    }
}

/// A path in whose text every platform finds the same components, separated by `/`: it
/// holds no `\` and no `:` (so no drive, share or verbatim prefix), and does not start
/// with `//`.
pub open spec fn portable_path(path: Seq<char>) -> bool {
    &&& !path.contains('\\')
    &&& !path.contains(':')
    &&& !starts_with(path, "//"@)
}

/// A file name component: not empty, without `/`, and neither `.` nor `..`.
pub open spec fn normal_name(name: Seq<char>) -> bool {
    &&& name.len() > 0
    &&& !name.contains('/')
    &&& name != "."@
    &&& name != ".."@
}

/// The text after the last `/` of `path`, or all of it when it has none.
pub open spec fn after_last_slash(path: Seq<char>) -> Seq<char> {
    match last_index_of(path, '/') {
        Some(k) => path.subrange(k + 1, path.len() as int),
        None => path,
    }
}

/// The file name of `path`, where every platform finds the same one: a portable path
/// whose last component, after its last `/`, is a file name component.
pub open spec fn portable_file_name(path: Seq<char>) -> Option<Seq<char>> {
    if portable_path(path) && normal_name(after_last_slash(path)) {
        Some(after_last_slash(path))
    } else {
        None
    }
}

/// The parent directory of `path`, where every platform finds the same one: for a
/// portable path that ends in a file name, the empty path when it has no `/`, and
/// otherwise the text before its last `/`, when that text is not empty, does not end in
/// `/`, and its own last component is not `.`.
pub open spec fn portable_parent(path: Seq<char>) -> Option<Seq<char>> {
    if portable_file_name(path) is Some {
        match last_index_of(path, '/') {
            None => Some(Seq::empty()),
            Some(k) => {
                let dir = path.subrange(0, k);
                if dir.len() > 0 && dir.last() != '/' && after_last_slash(dir) != "."@ {
                    Some(dir)
                } else {
                    None
                }
            },
        }
    } else {
        None
    }
}

/// The extension of the file a path names, when it has one that is valid UTF-8:
/// `std::path::Path::extension`, converted with `to_str`.
///
/// The documentation of `Path::extension` gives, of the path's file name, nothing when it
/// has no embedded `.` or begins with its only `.`, and otherwise the part after its last
/// `.`. What the file name of a path is depends on the platform's path syntax; the
/// contract states the result where every platform finds the same file name
/// (`portable_file_name`), and otherwise what holds of every path: one without a `.` has
/// no extension, and an extension holds no `.`.
#[verifier::external_body]
fn path_extension(path: &str) -> (r: Option<String>)
    ensures
        !path@.contains('.') ==> r is None,
        r matches Some(e) ==> !e@.contains('.'),
        portable_file_name(path@) matches Some(name) ==> opt_str_view(r) == name_extension(name),
{
    match std::path::Path::new(path).extension() {
        Some(ext) => match ext.to_str() {
            Some(text) => Some(text.to_owned()),
            None => None,
        },
        None => None,
    }
}

/// The extensions of the languages that are indexed.
pub open spec fn is_source_extension(ext: Seq<char>) -> bool {
    ||| ext == "go"@
    ||| ext == "rs"@
    ||| ext == "ts"@
    ||| ext == "tsx"@
    ||| ext == "py"@
}

/// Whether a file extension (as the path gives it, if any) is one of an indexed language.
pub fn source_extension(ext: Option<&str>) -> (r: bool)
    ensures
        r == match ext {
            Some(e) => is_source_extension(e@),
            None => false,
        },
{
    match ext {
        Some(e) => {
            let s = e.to_owned();
            s == "go".to_owned() || s == "rs".to_owned() || s == "ts".to_owned() || s
                == "tsx".to_owned() || s == "py".to_owned()
        },
        None => false,
    }
}

/// Whether the path names a source file of an indexed language: the extension that
/// `std::path::Path` finds in it, judged by `source_extension`.
pub fn is_source_file(path: &str) -> (r: bool)
    ensures
        !path@.contains('.') ==> !r,
        portable_file_name(path@) matches Some(name) ==> r == match name_extension(name) {
            Some(e) => is_source_extension(e),
            None => false,
        },
{
    let ext = path_extension(path);
    match ext {
        Some(e) => source_extension(Some(e.as_str())),
        None => source_extension(None),
    }
}


// ---------------------------------------------------------------------------
// Snapshots: the modification time of each source file, by relative path.
// ---------------------------------------------------------------------------

/// The files of a source tree with their modification times, in nanoseconds since the
/// Unix epoch; each path occurs once.
pub struct Snapshot {
    entries: Vec<(String, u128)>,
}

pub open spec fn unique_paths(v: Seq<(String, u128)>) -> bool {
    forall|i: int, j: int| 0 <= i < j < v.len() ==> (#[trigger] v[i]).0@ != (#[trigger] v[j]).0@
}

pub open spec fn entries_map(v: Seq<(String, u128)>) -> Map<Seq<char>, u128>
    decreases v.len(),
{
    if v.len() == 0 {
        Map::empty()
    } else {
        entries_map(v.drop_last()).insert(v.last().0@, v.last().1)
    }
}

#[verifier::spinoff_prover]
proof fn lemma_entries_map(v: Seq<(String, u128)>)
    requires
        unique_paths(v),
    ensures
        forall|i: int|
            0 <= i < v.len() ==> #[trigger] entries_map(v).contains_key(v[i].0@) && entries_map(
                v,
            )[v[i].0@] == v[i].1,
        forall|k: Seq<char>|
            #[trigger] entries_map(v).contains_key(k) ==> exists|i: int|
                0 <= i < v.len() && v[i].0@ == k,
        entries_map(v).dom().finite(),
        entries_map(v).dom().len() == v.len(),
    decreases v.len(),
{
    if v.len() > 0 {
        let d = v.drop_last();
        lemma_entries_map(d);
        let m = entries_map(d);
        assert(!m.contains_key(v.last().0@)) by {
            if m.contains_key(v.last().0@) {
                let i = choose|i: int| 0 <= i < d.len() && d[i].0@ == v.last().0@;
                assert(v[i] == d[i]);
            }
        }
        assert(entries_map(v) == m.insert(v.last().0@, v.last().1));
        assert forall|i: int| 0 <= i < v.len() implies #[trigger] entries_map(v).contains_key(
            v[i].0@,
        ) && entries_map(v)[v[i].0@] == v[i].1 by {
            if i < d.len() {
                assert(v[i] == d[i]);
                assert(v[i].0@ != v.last().0@);
                assert(m.contains_key(d[i].0@) && m[d[i].0@] == d[i].1);
            }
        }
        assert forall|k: Seq<char>| #[trigger] entries_map(v).contains_key(k) implies exists|i: int|
            0 <= i < v.len() && v[i].0@ == k by {
            if k == v.last().0@ {
                assert(v[v.len() - 1].0@ == k);
            } else {
                assert(m.contains_key(k));
                let i = choose|i: int| 0 <= i < d.len() && d[i].0@ == k;
                assert(v[i] == d[i]);
            }
        }
    }
}

impl View for Snapshot {
    type V = Map<Seq<char>, u128>;

    closed spec fn view(&self) -> Map<Seq<char>, u128> {
        entries_map(self.entries@)
    }
}

impl Snapshot {
    #[verifier::type_invariant]
    spec fn paths_unique(self) -> bool {
        unique_paths(self.entries@)
    }

    /// An empty snapshot.
    pub fn new() -> (s: Snapshot)
        ensures
            s@ == Map::<Seq<char>, u128>::empty(),
    {
        Snapshot { entries: Vec::new() }
    }

    fn position(&self, path: &str) -> (r: Option<usize>)
        ensures
            match r {
                Some(i) => i < self.entries@.len() && self.entries@[i as int].0@ == path@,
                None => forall|i: int|
                    0 <= i < self.entries@.len() ==> self.entries@[i].0@ != path@,
            },
    {
        let key = path.to_owned();
        let mut i: usize = 0;
        while i < self.entries.len()
            invariant
                key@ == path@,
                i <= self.entries@.len(),
                forall|k: int| 0 <= k < i ==> self.entries@[k].0@ != path@,
            decreases self.entries@.len() - i,
        {
            if self.entries[i].0 == key {
                return Some(i);
            }
            i = i + 1;
        }
        None
    }

    /// Records the modification time of `path`, replacing any earlier one.
    pub fn insert(&mut self, path: String, modified: u128)
        ensures
            final(self)@ == old(self)@.insert(path@, modified),
    {
        proof {
            use_type_invariant(&*self);
            lemma_entries_map(self.entries@);
        }
        let ghost before = self.entries@;
        let found = self.position(path.as_str());
        let mut entries: Vec<(String, u128)> = Vec::new();
        std::mem::swap(&mut entries, &mut self.entries);
        match found {
            Some(i) => {
                let ghost after = before.update(i as int, (path, modified));
                assert(unique_paths(after)) by {
                    assert forall|a: int, b: int| 0 <= a < b < after.len() implies (
                    #[trigger] after[a]).0@ != (#[trigger] after[b]).0@ by {
                        assert(before[a].0@ != before[b].0@);
                    }
                }
                proof {
                    lemma_entries_map(after);
                    assert(entries_map(after) =~= entries_map(before).insert(path@, modified)) by {
                        assert forall|k: Seq<char>| #[trigger] entries_map(after).contains_key(k)
                            <==> entries_map(before).insert(path@, modified).contains_key(k) by {
                            if entries_map(before).contains_key(k) {
                                let j = choose|j: int| 0 <= j < before.len() && before[j].0@ == k;
                                if j == i {
                                    assert(after[j].0@ == k);
                                } else {
                                    assert(after[j] == before[j]);
                                }
                            }
                            if entries_map(after).contains_key(k) {
                                let j = choose|j: int| 0 <= j < after.len() && after[j].0@ == k;
                                if j != i {
                                    assert(after[j] == before[j]);
                                }
                            }
                        }
                        assert forall|k: Seq<char>| #[trigger] entries_map(after).contains_key(k)
                            implies entries_map(after)[k] == entries_map(before).insert(
                            path@,
                            modified,
                        )[k] by {
                            let j = choose|j: int| 0 <= j < after.len() && after[j].0@ == k;
                            if j != i {
                                assert(after[j] == before[j]);
                                assert(k != path@);
                            }
                        }
                    }
                }
                entries.set(i, (path, modified));
            },
            None => {
                entries.push((path, modified));
                proof {
                    assert(entries@.drop_last() =~= before);
                    assert forall|a: int, b: int| 0 <= a < b < entries@.len() implies (
                    #[trigger] entries@[a]).0@ != (#[trigger] entries@[b]).0@ by {
                        if b < before.len() {
                            assert(entries@[a] == before[a]);
                            assert(entries@[b] == before[b]);
                        } else {
                            assert(entries@[a] == before[a]);
                        }
                    }
                }
            },
        }
        self.entries = entries;
    }

    /// The number of files.
    pub fn len(&self) -> (n: usize)
        ensures
            n == self@.len(),
    {
        proof {
            use_type_invariant(self);
            lemma_entries_map(self.entries@);
        }
        self.entries.len()
    }

    /// Whether `path` has a recorded time.
    pub fn contains_key(&self, path: &str) -> (b: bool)
        ensures
            b == self@.contains_key(path@),
    {
        proof {
            use_type_invariant(self);
            lemma_entries_map(self.entries@);
        }
        self.position(path).is_some()
    }

    /// The recorded time of `path`.
    pub fn get(&self, path: &str) -> (r: Option<u128>)
        ensures
            r == (if self@.contains_key(path@) {
                Some(self@[path@])
            } else {
                None::<u128>
            }),
    {
        proof {
            use_type_invariant(self);
            lemma_entries_map(self.entries@);
        }
        match self.position(path) {
            Some(i) => Some(self.entries[i].1),
            None => None,
        }
    }
}

/// Recording a time for a file makes the snapshot compare unequal to the earlier one
/// exactly when the file is new or its time changed.
pub proof fn lemma_change_is_detected(before: Map<Seq<char>, u128>, path: Seq<char>, modified: u128)
    ensures
        (before.insert(path, modified) == before) <==> (before.contains_key(path)
            && before[path] == modified),
{
    if before.contains_key(path) && before[path] == modified {
        assert(before.insert(path, modified) =~= before);
    } else if before.insert(path, modified) == before {
        assert(before.insert(path, modified).contains_key(path));
        assert(before.insert(path, modified)[path] == modified);
    }
}

/// After recording a time for a file, the file's time is the one recorded, and every
/// other file keeps its time.
pub proof fn lemma_read_after_write(
    before: Map<Seq<char>, u128>,
    path: Seq<char>,
    modified: u128,
    other: Seq<char>,
)
    ensures
        before.insert(path, modified).contains_key(path),
        before.insert(path, modified)[path] == modified,
        other != path ==> (before.insert(path, modified).contains_key(other) == before.contains_key(
            other,
        ) && (before.contains_key(other) ==> before.insert(path, modified)[other] == before[other])),
{
}

/// Whether two snapshots hold the same files with the same modification times.
pub fn snapshots_equal(left: &Snapshot, right: &Snapshot) -> (r: bool)
    ensures
        r == (left@ == right@),
{
    proof {
        use_type_invariant(left);
        use_type_invariant(right);
        lemma_entries_map(left.entries@);
        lemma_entries_map(right.entries@);
    }
    if left.entries.len() != right.entries.len() {
        return false;
    }
    let mut i: usize = 0;
    while i < left.entries.len()
        invariant
            unique_paths(left.entries@),
            unique_paths(right.entries@),
            i <= left.entries@.len(),
            forall|k: int|
                0 <= k < i ==> #[trigger] right@.contains_key(left.entries@[k].0@),
            forall|k: int|
                0 <= k < i ==> #[trigger] right@[left.entries@[k].0@] == left.entries@[k].1,
        decreases left.entries@.len() - i,
    {
        proof {
            lemma_entries_map(right.entries@);
        }
        let key = left.entries[i].0.as_str();
        assert(key@ == left.entries@[i as int].0@);
        match right.get(key) {
            Some(t) => {
                if t != left.entries[i].1 {
                    proof {
                        lemma_entries_map(left.entries@);
                        assert(left@.contains_key(left.entries@[i as int].0@));
                        assert(left@[left.entries@[i as int].0@] == left.entries@[i as int].1);
                    }
                    return false;
                }
                assert(right@.contains_key(left.entries@[i as int].0@));
                assert(right@[left.entries@[i as int].0@] == left.entries@[i as int].1);
            },
            None => {
                proof {
                    lemma_entries_map(left.entries@);
                    assert(left@.contains_key(left.entries@[i as int].0@));
                }
                return false;
            },
        }
        i = i + 1;
    }
    proof {
        lemma_entries_map(left.entries@);
        assert(left@.dom().subset_of(right@.dom())) by {
            assert forall|k: Seq<char>| left@.contains_key(k) implies right@.contains_key(k) by {
                let j = choose|j: int| 0 <= j < left.entries@.len() && left.entries@[j].0@ == k;
                assert(right@.contains_key(left.entries@[j].0@));
            }
        }
        vstd::set_lib::lemma_subset_equality(left@.dom(), right@.dom());
        assert(left@ =~= right@) by {
            assert forall|k: Seq<char>| left@.contains_key(k) implies left@[k] == right@[k] by {
                let j = choose|j: int| 0 <= j < left.entries@.len() && left.entries@[j].0@ == k;
                assert(right@.contains_key(left.entries@[j].0@));
            }
        }
    }
    true
}

} // verus!
