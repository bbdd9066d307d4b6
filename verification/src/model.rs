//! Directory snapshots and their mathematical model.
//!
//! A `Directory` holds the immediate entries of one directory at the moment a
//! caller took the snapshot. Entry names are byte strings, so names that are
//! not valid text can still be carried (a caller may store any lossy decoding
//! it likes). The model of a snapshot is a sequence of `EntryModel` values;
//! all contracts in this crate are stated over that sequence.

use vstd::prelude::*;

verus! {

/// Attribute bit that marks an entry as hidden on attribute-flag platforms.
pub const HIDDEN_FLAG: u32 = 2;

/// Attribute bit that marks an entry as a system file on attribute-flag
/// platforms; hiding sets it together with `HIDDEN_FLAG`.
pub const SYSTEM_FLAG: u32 = 4;

/// Marker byte (an ASCII dot) whose presence at the front of a name encodes
/// hiding on naming-convention platforms.
pub const HIDE_MARKER: u8 = 46;

/// Kind of an immediate directory entry. Only regular files are listed and
/// moved; every other kind of entry counts as `Subdir` here, since the
/// operations treat them all alike: they are skipped.
#[derive(Clone, Copy, PartialEq, Eq, Structural, Debug)]
pub enum EntryKind {
    File,
    Subdir,
}

/// One immediate entry of a directory snapshot: its name, its kind, and its
/// platform attribute bits (meaningful on attribute-flag platforms, zero
/// elsewhere).
#[derive(Debug, PartialEq, Eq)]
pub struct Entry {
    pub name: Vec<u8>,
    pub kind: EntryKind,
    pub attrs: u32,
}

/// Mathematical value of an `Entry`.
pub ghost struct EntryModel {
    pub name: Seq<u8>,
    pub kind: EntryKind,
    pub attrs: u32,
}

impl View for Entry {
    type V = EntryModel;

    open spec fn view(&self) -> EntryModel {
        EntryModel { name: self.name@, kind: self.kind, attrs: self.attrs }
    }
}

impl Clone for Entry {
    fn clone(&self) -> (r: Entry)
        ensures
            r@ == self@,
    {
        Entry { name: clone_name(&self.name), kind: self.kind, attrs: self.attrs }
    }
}

/// A snapshot of the immediate entries of one directory.
#[derive(Debug, PartialEq, Eq)]
pub struct Directory {
    pub entries: Vec<Entry>,
}

pub open spec fn entries_view(es: Seq<Entry>) -> Seq<EntryModel> {
    es.map_values(|e: Entry| e@)
}

impl View for Directory {
    type V = Seq<EntryModel>;

    open spec fn view(&self) -> Seq<EntryModel> {
        entries_view(self.entries@)
    }
}

/// The views of a list of names.
pub open spec fn names_view(ns: Seq<Vec<u8>>) -> Seq<Seq<u8>> {
    ns.map_values(|n: Vec<u8>| n@)
}

/// Whether some entry carries the name `n`.
pub open spec fn has_name(es: Seq<EntryModel>, n: Seq<u8>) -> bool {
    exists|i: int| 0 <= i < es.len() && es[i].name == n
}

/// The index of the entry named `n` (meaningful under `has_name` and
/// `dir_wf`, which makes it unique).
pub open spec fn index_of_name(es: Seq<EntryModel>, n: Seq<u8>) -> int {
    choose|i: int| 0 <= i < es.len() && es[i].name == n
}

/// Well-formedness of a snapshot: entry names are pairwise distinct, as they
/// are within a real directory.
pub open spec fn dir_wf(es: Seq<EntryModel>) -> bool {
    forall|i: int, j: int| 0 <= i < j < es.len() ==> es[i].name != es[j].name
}

pub open spec fn is_file(e: EntryModel) -> bool {
    e.kind is File
}

/// The names of the regular files among `es`, in enumeration order.
pub open spec fn file_names(es: Seq<EntryModel>) -> Seq<Seq<u8>>
    decreases es.len(),
{
    if es.len() == 0 {
        Seq::empty()
    } else if is_file(es[0]) {
        seq![es[0].name] + file_names(es.drop_first())
    } else {
        file_names(es.drop_first())
    }
}

/// The regular-file entries among `es`, in enumeration order.
pub open spec fn file_entries(es: Seq<EntryModel>) -> Seq<EntryModel>
    decreases es.len(),
{
    if es.len() == 0 {
        Seq::empty()
    } else if is_file(es[0]) {
        seq![es[0]] + file_entries(es.drop_first())
    } else {
        file_entries(es.drop_first())
    }
}

/// The entries of `es` that are not regular files, in enumeration order.
pub open spec fn residual_entries(es: Seq<EntryModel>) -> Seq<EntryModel>
    decreases es.len(),
{
    if es.len() == 0 {
        Seq::empty()
    } else if is_file(es[0]) {
        residual_entries(es.drop_first())
    } else {
        seq![es[0]] + residual_entries(es.drop_first())
    }
}

/// The hidden-side counterpart of a name on naming-convention platforms: the
/// name with the marker prepended.
pub open spec fn hidden_name(n: Seq<u8>) -> Seq<u8> {
    seq![HIDE_MARKER] + n
}

/// The visible-side counterpart of a name on naming-convention platforms:
/// the name with every leading marker stripped.
pub open spec fn visible_name(n: Seq<u8>) -> Seq<u8>
    decreases n.len(),
{
    if n.len() > 0 && n[0] == HIDE_MARKER {
        visible_name(n.drop_first())
    } else {
        n
    }
}

/// A non-empty visible-side name never starts with the marker: stripping
/// stops only at a non-marker byte.
pub proof fn lemma_visible_name_not_marked(n: Seq<u8>)
    ensures
        visible_name(n).len() > 0 ==> visible_name(n)[0] != HIDE_MARKER,
    decreases n.len(),
{
    if n.len() > 0 && n[0] == HIDE_MARKER {
        lemma_visible_name_not_marked(n.drop_first());
    }
}

/// Copies a name.
pub fn clone_name(n: &Vec<u8>) -> (r: Vec<u8>)
    ensures
        r@ == n@,
{
    let mut r: Vec<u8> = Vec::new();
    let mut i: usize = 0;
    while i < n.len()
        invariant
            i <= n.len(),
            r@ == n@.subrange(0, i as int),
        decreases n.len() - i,
    {
        r.push(n[i]);
        assert(r@ =~= n@.subrange(0, i + 1 as int));
        i = i + 1;
    }
    assert(r@ =~= n@);
    r
}

/// Byte-for-byte equality of two names.
pub fn names_equal(a: &Vec<u8>, b: &Vec<u8>) -> (r: bool)
    ensures
        r <==> a@ == b@,
{
    if a.len() != b.len() {
        assert(a@ != b@) by {
            assert(a@.len() != b@.len());
        }
        return false;
    }
    let mut i: usize = 0;
    while i < a.len()
        invariant
            i <= a.len(),
            a@.len() == b@.len(),
            forall|k: int| 0 <= k < i ==> a@[k] == b@[k],
        decreases a.len() - i,
    {
        if a[i] != b[i] {
            return false;
        }
        i = i + 1;
    }
    assert(a@ =~= b@);
    true
}

/// Whether the list contains the name, byte for byte.
pub fn name_in_list(names: &Vec<Vec<u8>>, n: &Vec<u8>) -> (r: bool)
    ensures
        r <==> names_view(names@).contains(n@),
{
    let mut i: usize = 0;
    while i < names.len()
        invariant
            i <= names.len(),
            forall|k: int| 0 <= k < i ==> names_view(names@)[k] != n@,
        decreases names.len() - i,
    {
        if names_equal(&names[i], n) {
            assert(names_view(names@)[i as int] == n@);
            assert(names_view(names@).contains(n@));
            return true;
        }
        i = i + 1;
    }
    proof {
        if names_view(names@).contains(n@) {
            let j = choose|j: int|
                0 <= j < names_view(names@).len() && names_view(names@)[j] == n@;
            assert(names_view(names@)[j] != n@);
        }
    }
    false
}

/// Whether the entry is a regular file.
pub fn is_file_entry(e: &Entry) -> (r: bool)
    ensures
        r == is_file(e@),
{
    match e.kind {
        EntryKind::File => true,
        EntryKind::Subdir => false,
    }
}

/// Finds an entry by name; `None` means no entry carries the name.
pub fn find_entry(entries: &Vec<Entry>, name: &Vec<u8>) -> (r: Option<usize>)
    ensures
        match r {
            Some(i) => i < entries@.len() && entries_view(entries@)[i as int].name == name@,
            None => !has_name(entries_view(entries@), name@),
        },
{
    let ghost es = entries_view(entries@);
    let mut i: usize = 0;
    while i < entries.len()
        invariant
            i <= entries.len(),
            es == entries_view(entries@),
            es.len() == entries@.len(),
            forall|k: int| 0 <= k < i ==> es[k].name != name@,
        decreases entries.len() - i,
    {
        if names_equal(&entries[i].name, name) {
            assert(es[i as int].name == name@);
            return Some(i);
        }
        i = i + 1;
    }
    assert(!has_name(es, name@)) by {
        if has_name(es, name@) {
            let j = choose|j: int| 0 <= j < es.len() && es[j].name == name@;
            assert(es[j].name != name@);
        }
    }
    None
}

/// Builds the hidden-side counterpart of a name.
pub fn make_hidden_name(n: &Vec<u8>) -> (r: Vec<u8>)
    ensures
        r@ == hidden_name(n@),
{
    let mut r: Vec<u8> = Vec::new();
    r.push(HIDE_MARKER);
    let mut i: usize = 0;
    while i < n.len()
        invariant
            i <= n.len(),
            r@ == seq![HIDE_MARKER] + n@.subrange(0, i as int),
        decreases n.len() - i,
    {
        r.push(n[i]);
        assert(r@ =~= seq![HIDE_MARKER] + n@.subrange(0, i + 1 as int));
        i = i + 1;
    }
    assert(r@ =~= hidden_name(n@));
    r
}

/// `visible_name` skips exactly the leading run of markers.
proof fn lemma_visible_name_skip(n: Seq<u8>, k: int)
    requires
        0 <= k <= n.len(),
        forall|i: int| 0 <= i < k ==> n[i] == HIDE_MARKER,
        k < n.len() ==> n[k] != HIDE_MARKER,
    ensures
        visible_name(n) == n.subrange(k, n.len() as int),
    decreases k,
{
    if k == 0 {
        if n.len() > 0 && n[0] == HIDE_MARKER {
            assert(n[k] != HIDE_MARKER);
        }
        assert(visible_name(n) == n);
        assert(n.subrange(0, n.len() as int) =~= n);
    } else {
        assert(n[0] == HIDE_MARKER);
        let m = n.drop_first();
        assert(visible_name(n) == visible_name(m));
        assert(forall|i: int| 0 <= i < k - 1 ==> m[i] == n[i + 1] && m[i] == HIDE_MARKER);
        lemma_visible_name_skip(m, k - 1);
        assert(m.subrange(k - 1, m.len() as int) =~= n.subrange(k, n.len() as int));
    }
}

/// Builds the visible-side counterpart of a name.
pub fn make_visible_name(n: &Vec<u8>) -> (r: Vec<u8>)
    ensures
        r@ == visible_name(n@),
{
    let mut k: usize = 0;
    while k < n.len() && n[k] == HIDE_MARKER
        invariant
            k <= n.len(),
            forall|i: int| 0 <= i < k ==> n@[i] == HIDE_MARKER,
        decreases n.len() - k,
    {
        k = k + 1;
    }
    proof {
        lemma_visible_name_skip(n@, k as int);
    }
    let mut r: Vec<u8> = Vec::new();
    let mut i: usize = k;
    while i < n.len()
        invariant
            k <= i <= n.len(),
            r@ == n@.subrange(k as int, i as int),
        decreases n.len() - i,
    {
        r.push(n[i]);
        assert(r@ =~= n@.subrange(k as int, i + 1 as int));
        i = i + 1;
    }
    r
}

/// Under well-formedness, an entry that carries a name stands at the one
/// index that `index_of_name` denotes.
pub proof fn lemma_index_unique(es: Seq<EntryModel>, n: Seq<u8>, i: int)
    requires
        dir_wf(es),
        0 <= i < es.len(),
        es[i].name == n,
    ensures
        has_name(es, n),
        index_of_name(es, n) == i,
{
    assert(has_name(es, n));
    let j = index_of_name(es, n);
    assert(0 <= j < es.len() && es[j].name == n);
    if j < i {
        assert(es[j].name != es[i].name);
    } else if i < j {
        assert(es[i].name != es[j].name);
    }
}

/// Updating one entry keeps names pairwise distinct, provided the new name is
/// either absent from the snapshot or the entry's own old name.
pub proof fn lemma_wf_update(es: Seq<EntryModel>, i: int, e2: EntryModel)
    requires
        dir_wf(es),
        0 <= i < es.len(),
        !has_name(es, e2.name) || e2.name == es[i].name,
    ensures
        dir_wf(es.update(i, e2)),
{
    let es2 = es.update(i, e2);
    assert forall|a: int, b: int| 0 <= a < b < es2.len() implies es2[a].name != es2[b].name by {
        if a != i && b != i {
            assert(es[a].name != es[b].name);
        } else if a == i {
            if es2[a].name == es2[b].name {
                assert(es[b].name == e2.name);
                assert(has_name(es, e2.name));
                assert(es[i].name != es[b].name);
            }
        } else {
            if es2[a].name == es2[b].name {
                assert(es[a].name == e2.name);
                assert(has_name(es, e2.name));
                assert(es[a].name != es[i].name);
            }
        }
    }
}

/// Removing one entry keeps names pairwise distinct.
pub proof fn lemma_wf_remove(es: Seq<EntryModel>, i: int)
    requires
        dir_wf(es),
        0 <= i < es.len(),
    ensures
        dir_wf(es.remove(i)),
{
    let es2 = es.remove(i);
    assert forall|a: int, b: int| 0 <= a < b < es2.len() implies es2[a].name != es2[b].name by {
        let a0 = if a < i { a } else { a + 1 };
        let b0 = if b < i { b } else { b + 1 };
        assert(es2[a] == es[a0]);
        assert(es2[b] == es[b0]);
        assert(es[a0].name != es[b0].name);
    }
}

/// `file_names` lists exactly the names of `file_entries`, in the same
/// order, and every entry of `file_entries` is a regular file.
pub proof fn lemma_file_entries_names(es: Seq<EntryModel>)
    ensures
        file_entries(es).len() == file_names(es).len(),
        forall|k: int| 0 <= k < file_entries(es).len()
            ==> file_names(es)[k] == #[trigger] file_entries(es)[k].name,
        forall|k: int| 0 <= k < file_entries(es).len() ==> is_file(#[trigger] file_entries(es)[k]),
    decreases es.len(),
{
    if es.len() == 0 {
    } else {
        let m = es.drop_first();
        lemma_file_entries_names(m);
        if is_file(es[0]) {
            assert(file_entries(es) == seq![es[0]] + file_entries(m));
            assert(file_names(es) == seq![es[0].name] + file_names(m));
            assert(forall|k: int| 1 <= k < file_entries(es).len()
                ==> #[trigger] file_entries(es)[k] == file_entries(m)[k - 1]);
            assert(forall|k: int| 1 <= k < file_names(es).len()
                ==> #[trigger] file_names(es)[k] == file_names(m)[k - 1]);
        }
    }
}

/// The name of any regular-file entry appears in `file_names`.
pub proof fn lemma_file_names_contains(es: Seq<EntryModel>, i: int)
    requires
        0 <= i < es.len(),
        is_file(es[i]),
    ensures
        file_names(es).contains(es[i].name),
    decreases es.len(),
{
    if i == 0 {
        assert(file_names(es)[0] == es[0].name);
    } else {
        let m = es.drop_first();
        lemma_file_names_contains(m, i - 1);
        let j = choose|j: int| 0 <= j < file_names(m).len() && file_names(m)[j] == m[i - 1].name;
        if is_file(es[0]) {
            assert(file_names(es)[j + 1] == file_names(m)[j]);
        } else {
            assert(file_names(es)[j] == file_names(m)[j]);
        }
    }
}

} // verus!
