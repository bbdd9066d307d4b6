//! The file operations: listing, moving, and toggling visibility.
//!
//! Every operation takes directory snapshots (`None` stands for a path that
//! does not exist) and returns, besides the predicted new snapshots, the
//! concrete actions a caller must perform against the real filesystem. A
//! batch (move or visibility toggle) processes its files in order and stops
//! at the first conflict, keeping whatever the completed prefix produced:
//! there is no rollback, which mirrors the behaviour of the underlying
//! rename-one-file-at-a-time system calls.

use vstd::prelude::*;

use crate::model::Directory;
use crate::model::Entry;
use crate::model::EntryModel;
use crate::model::HIDDEN_FLAG;
use crate::model::HIDE_MARKER;
use crate::model::SYSTEM_FLAG;
use crate::model::clone_name;
use crate::model::dir_wf;
use crate::model::entries_view;
use crate::model::file_entries;
use crate::model::file_names;
use crate::model::find_entry;
use crate::model::has_name;
use crate::model::hidden_name;
use crate::model::index_of_name;
use crate::model::is_file_entry;
use crate::model::lemma_file_entries_names;
use crate::model::lemma_index_unique;
use crate::model::lemma_wf_remove;
use crate::model::lemma_wf_update;
use crate::model::make_hidden_name;
use crate::model::make_visible_name;
use crate::model::name_in_list;
use crate::model::names_view;
use crate::model::residual_entries;
use crate::model::visible_name;

verus! {

/// The error kinds of the operations. `IoError` and `Unavailable` are never
/// produced here: they arise only when a caller performs the returned
/// actions against the real filesystem (a failed system call, a path whose
/// final component cannot be derived) and are part of this type so that all
/// callers share one error vocabulary.
#[derive(Clone, Copy, PartialEq, Eq, Structural, Debug)]
pub enum FsError {
    NotFound,
    IoError,
    AlreadyExists,
    Unavailable,
}

/// How a platform family stores the hidden state of a file.
#[derive(Clone, Copy, PartialEq, Eq, Structural, Debug)]
pub enum Platform {
    /// Hidden state is an attribute bit in file metadata; names never change.
    AttributeFlag,
    /// Hidden state is a leading marker in the file name.
    NamingConvention,
}

/// Which way a visibility toggle goes.
#[derive(Clone, Copy, PartialEq, Eq, Structural, Debug)]
pub enum ToggleOp {
    Hide,
    Show,
}

/// One concrete filesystem action a caller must perform.
#[derive(Debug, PartialEq, Eq)]
pub enum Action {
    /// Rename the entry `from` to `to`, both immediate names in the
    /// directory the operation was given.
    Rename { from: Vec<u8>, to: Vec<u8> },
    /// Write the attribute bits `attrs` on the entry `name`.
    SetAttributes { name: Vec<u8>, attrs: u32 },
}

/// Mathematical value of an `Action`.
pub ghost enum ActionModel {
    Rename { from: Seq<u8>, to: Seq<u8> },
    SetAttributes { name: Seq<u8>, attrs: u32 },
}

impl View for Action {
    type V = ActionModel;

    open spec fn view(&self) -> ActionModel {
        match self {
            Action::Rename { from, to } => ActionModel::Rename { from: from@, to: to@ },
            Action::SetAttributes { name, attrs } => ActionModel::SetAttributes {
                name: name@,
                attrs: *attrs,
            },
        }
    }
}

pub open spec fn actions_view(acts: Seq<Action>) -> Seq<ActionModel> {
    acts.map_values(|a: Action| a@)
}

/// Where and why a batch stopped early.
#[derive(Debug, PartialEq, Eq)]
pub struct Failure {
    pub name: Vec<u8>,
    pub error: FsError,
}

/// Mathematical value of a `Failure`.
pub ghost struct FailureModel {
    pub name: Seq<u8>,
    pub error: FsError,
}

impl View for Failure {
    type V = FailureModel;

    open spec fn view(&self) -> FailureModel {
        FailureModel { name: self.name@, error: self.error }
    }
}

/// The result of a visibility batch: the snapshot after the completed
/// prefix, the actions of that prefix, and the failure that stopped the
/// batch, if one did. Files before the failure stay processed; files after
/// it stay untouched.
#[derive(Debug, PartialEq, Eq)]
pub struct BatchOutcome {
    pub dir: Directory,
    pub actions: Vec<Action>,
    pub failure: Option<Failure>,
}

/// Mathematical outcome of a batch.
#[verifier::ext_equal]
pub ghost struct BatchSpec {
    pub entries: Seq<EntryModel>,
    pub actions: Seq<ActionModel>,
    pub conflict: Option<Seq<u8>>,
}

/// Whether the platform's default enumeration would suppress the entry:
/// the hidden attribute bit on attribute-flag platforms, a leading marker
/// in the name on naming-convention platforms.
pub open spec fn is_hidden(platform: Platform, e: EntryModel) -> bool {
    match platform {
        Platform::AttributeFlag => e.attrs & HIDDEN_FLAG != 0,
        Platform::NamingConvention => e.name.len() > 0 && e.name[0] == HIDE_MARKER,
    }
}

/// A step that touches nothing.
pub open spec fn skip_step(es: Seq<EntryModel>) -> BatchSpec {
    BatchSpec { entries: es, actions: Seq::empty(), conflict: None }
}

/// A step that renames the entry `from` to `to`.
pub open spec fn rename_step(es: Seq<EntryModel>, from: Seq<u8>, to: Seq<u8>) -> BatchSpec {
    let i = index_of_name(es, from);
    let e = es[i];
    BatchSpec {
        entries: es.update(i, EntryModel { name: to, kind: e.kind, attrs: e.attrs }),
        actions: seq![ActionModel::Rename { from: from, to: to }],
        conflict: None,
    }
}

/// What hiding one file does to a snapshot. A file with no entry is skipped;
/// on the naming-convention platform an existing hidden-side counterpart is
/// a conflict that stops the batch.
pub open spec fn hide_step(platform: Platform, es: Seq<EntryModel>, f: Seq<u8>) -> BatchSpec {
    match platform {
        Platform::AttributeFlag => {
            if !has_name(es, f) {
                skip_step(es)
            } else {
                let i = index_of_name(es, f);
                let e = es[i];
                let a2 = e.attrs | HIDDEN_FLAG | SYSTEM_FLAG;
                BatchSpec {
                    entries: es.update(i, EntryModel { name: e.name, kind: e.kind, attrs: a2 }),
                    actions: seq![ActionModel::SetAttributes { name: f, attrs: a2 }],
                    conflict: None,
                }
            }
        }
        Platform::NamingConvention => {
            if !has_name(es, f) {
                skip_step(es)
            } else if has_name(es, hidden_name(f)) {
                BatchSpec { entries: es, actions: Seq::empty(), conflict: Some(hidden_name(f)) }
            } else {
                rename_step(es, f, hidden_name(f))
            }
        }
    }
}

/// What showing one file does to a snapshot. On the naming-convention
/// platform the requested name may be given in either its visible or its
/// hidden form: every leading marker is stripped first, and the hidden-side
/// counterpart of that visible name is what is looked for.
pub open spec fn show_step(platform: Platform, es: Seq<EntryModel>, f: Seq<u8>) -> BatchSpec {
    match platform {
        Platform::AttributeFlag => {
            if !has_name(es, f) {
                skip_step(es)
            } else {
                let i = index_of_name(es, f);
                let e = es[i];
                let a2 = e.attrs & !(HIDDEN_FLAG | SYSTEM_FLAG);
                BatchSpec {
                    entries: es.update(i, EntryModel { name: e.name, kind: e.kind, attrs: a2 }),
                    actions: seq![ActionModel::SetAttributes { name: f, attrs: a2 }],
                    conflict: None,
                }
            }
        }
        Platform::NamingConvention => {
            let vis = visible_name(f);
            let hid = hidden_name(vis);
            if !has_name(es, hid) {
                skip_step(es)
            } else if has_name(es, vis) {
                BatchSpec { entries: es, actions: Seq::empty(), conflict: Some(vis) }
            } else {
                rename_step(es, hid, vis)
            }
        }
    }
}

pub open spec fn toggle_step(op: ToggleOp, platform: Platform, es: Seq<EntryModel>, f: Seq<u8>) -> BatchSpec {
    match op {
        ToggleOp::Hide => hide_step(platform, es, f),
        ToggleOp::Show => show_step(platform, es, f),
    }
}

/// What a whole visibility batch does: the files in order, first conflict
/// stops the batch and keeps the state the completed prefix produced.
pub open spec fn toggle_batch(
    op: ToggleOp,
    platform: Platform,
    es: Seq<EntryModel>,
    files: Seq<Seq<u8>>,
) -> BatchSpec
    decreases files.len(),
{
    if files.len() == 0 {
        BatchSpec { entries: es, actions: Seq::empty(), conflict: None }
    } else {
        let s = toggle_step(op, platform, es, files[0]);
        if s.conflict is Some {
            s
        } else {
            let rest = toggle_batch(op, platform, s.entries, files.drop_first());
            BatchSpec {
                entries: rest.entries,
                actions: s.actions + rest.actions,
                conflict: rest.conflict,
            }
        }
    }
}

/// A batch over a single file does what the one step does.
pub proof fn lemma_toggle_batch_single(
    op: ToggleOp,
    platform: Platform,
    es: Seq<EntryModel>,
    f: Seq<u8>,
)
    ensures
        toggle_batch(op, platform, es, seq![f]) == toggle_step(op, platform, es, f),
{
    let fs = seq![f];
    assert(fs.len() == 1);
    assert(fs[0] == f);
    let s = toggle_step(op, platform, es, f);
    if s.conflict is None {
        let e = fs.drop_first();
        assert(e.len() == 0);
        let rest = toggle_batch(op, platform, s.entries, e);
        assert(rest.entries == s.entries);
        assert(rest.conflict is None);
        assert(s.actions + rest.actions =~= s.actions);
        assert(toggle_batch(op, platform, es, fs) =~= s);
    }
}

/// How an executable `BatchOutcome` realises a mathematical `BatchSpec`: the
/// snapshot and the actions agree, and a conflict is reported as
/// `AlreadyExists` at the conflicting name.
pub open spec fn outcome_matches(o: BatchOutcome, b: BatchSpec) -> bool {
    &&& o.dir@ == b.entries
    &&& actions_view(o.actions@) == b.actions
    &&& match (o.failure, b.conflict) {
        (Option::None, Option::None) => true,
        (Option::Some(fl), Option::Some(n)) => fl@.name == n && fl@.error == FsError::AlreadyExists,
        _ => false,
    }
    &&& dir_wf(o.dir@)
}

/// A toggle step keeps names pairwise distinct, and a conflicting step
/// leaves the snapshot as it was.
pub proof fn lemma_toggle_step_wf(op: ToggleOp, platform: Platform, es: Seq<EntryModel>, f: Seq<u8>)
    requires
        dir_wf(es),
    ensures
        dir_wf(toggle_step(op, platform, es, f).entries),
        toggle_step(op, platform, es, f).conflict is Some ==> toggle_step(op, platform, es, f).entries == es,
{
    let s = toggle_step(op, platform, es, f);
    match op {
        ToggleOp::Hide => {
            match platform {
                Platform::AttributeFlag => {
                    if has_name(es, f) {
                        let i = index_of_name(es, f);
                        assert(0 <= i < es.len() && es[i].name == f);
                        lemma_wf_update(es, i, EntryModel { name: es[i].name, kind: es[i].kind, attrs: es[i].attrs | HIDDEN_FLAG | SYSTEM_FLAG });
                    }
                }
                Platform::NamingConvention => {
                    if has_name(es, f) && !has_name(es, hidden_name(f)) {
                        let i = index_of_name(es, f);
                        assert(0 <= i < es.len() && es[i].name == f);
                        lemma_wf_update(es, i, EntryModel { name: hidden_name(f), kind: es[i].kind, attrs: es[i].attrs });
                    }
                }
            }
        }
        ToggleOp::Show => {
            match platform {
                Platform::AttributeFlag => {
                    if has_name(es, f) {
                        let i = index_of_name(es, f);
                        assert(0 <= i < es.len() && es[i].name == f);
                        lemma_wf_update(es, i, EntryModel { name: es[i].name, kind: es[i].kind, attrs: es[i].attrs & !(HIDDEN_FLAG | SYSTEM_FLAG) });
                    }
                }
                Platform::NamingConvention => {
                    let vis = visible_name(f);
                    let hid = hidden_name(vis);
                    if has_name(es, hid) && !has_name(es, vis) {
                        let i = index_of_name(es, hid);
                        assert(0 <= i < es.len() && es[i].name == hid);
                        lemma_wf_update(es, i, EntryModel { name: vis, kind: es[i].kind, attrs: es[i].attrs });
                    }
                }
            }
        }
    }
}

/// Lists the immediate regular files of a directory, in enumeration order.
/// A missing directory is `NotFound`; subdirectories and other non-regular
/// entries are skipped without error.
pub fn list_files(dir: &Option<Directory>) -> (r: Result<Vec<Vec<u8>>, FsError>)
    ensures
        dir is None <==> r is Err,
        r matches Err(e) ==> e == FsError::NotFound,
        dir matches Some(d) ==> (r matches Ok(names) && names_view(names@) == file_names(d@)),
{
    match dir {
        None => Err(FsError::NotFound),
        Some(d) => {
            let ghost all = d@;
            let mut out: Vec<Vec<u8>> = Vec::new();
            let mut i: usize = 0;
            proof {
                assert(all.subrange(0, all.len() as int) =~= all);
                assert(names_view(out@) + file_names(all) =~= file_names(all));
            }
            while i < d.entries.len()
                invariant
                    i <= d.entries.len(),
                    all == entries_view(d.entries@),
                    all.len() == d.entries@.len(),
                    file_names(all) == names_view(out@) + file_names(
                        all.subrange(i as int, all.len() as int),
                    ),
                decreases d.entries.len() - i,
            {
                let ghost suf = all.subrange(i as int, all.len() as int);
                let ghost before = out@;
                proof {
                    assert(suf[0] == all[i as int]);
                    assert(suf.drop_first() =~= all.subrange(i + 1, all.len() as int));
                }
                if is_file_entry(&d.entries[i]) {
                    out.push(clone_name(&d.entries[i].name));
                    proof {
                        assert(names_view(out@) =~= names_view(before) + seq![all[i as int].name]);
                        assert(names_view(before) + (seq![all[i as int].name] + file_names(
                            suf.drop_first(),
                        )) =~= (names_view(before) + seq![all[i as int].name]) + file_names(
                            suf.drop_first(),
                        ));
                    }
                }
                i = i + 1;
            }
            proof {
                assert(all.subrange(all.len() as int, all.len() as int) =~= Seq::<
                    EntryModel,
                >::empty());
                assert(names_view(out@) + Seq::<Seq<u8>>::empty() =~= names_view(out@));
            }
            Ok(out)
        }
    }
}

/// The entries of a destination snapshot that survive a move from a source
/// whose regular files carry the names `moved`: a same-named entry is
/// overwritten by the arriving file, every other entry stays.
pub open spec fn kept_dest(ds: Seq<EntryModel>, moved: Seq<Seq<u8>>) -> Seq<EntryModel>
    decreases ds.len(),
{
    if ds.len() == 0 {
        Seq::empty()
    } else if moved.contains(ds[0].name) {
        kept_dest(ds.drop_first(), moved)
    } else {
        seq![ds[0]] + kept_dest(ds.drop_first(), moved)
    }
}

/// The destination snapshot after a move: its surviving entries followed by
/// the regular files that arrived from the source.
pub open spec fn merged_dest(src: Seq<EntryModel>, dst: Seq<EntryModel>) -> Seq<EntryModel> {
    kept_dest(dst, file_names(src)) + file_entries(src)
}

/// The result of a move: the two snapshots as they stand afterwards, and
/// the names of the files that arrived, in source enumeration order. The
/// caller performs one rename per moved name, from the source directory to
/// the destination directory.
#[derive(Debug, PartialEq, Eq)]
pub struct MoveOutcome {
    pub source: Directory,
    pub dest: Directory,
    pub moved: Vec<Vec<u8>>,
}

/// Moves every immediate regular file of the source into the destination.
/// Either snapshot missing is `NotFound`, checked before any move begins.
/// Subdirectories stay behind, unmoved and unreported; a same-named file in
/// the destination is overwritten, as a plain rename would overwrite it.
pub fn move_files_from_directory(source: &Option<Directory>, dest: &Option<Directory>) -> (r:
    Result<MoveOutcome, FsError>)
    requires
        source matches Some(s) ==> dir_wf(s@),
        dest matches Some(d) ==> dir_wf(d@),
    ensures
        (source is None || dest is None) <==> r is Err,
        r matches Err(e) ==> e == FsError::NotFound,
        source matches Some(s) ==> dest matches Some(d) ==> (r matches Ok(o) && {
            &&& o.source@ == residual_entries(s@)
            &&& o.dest@ == merged_dest(s@, d@)
            &&& names_view(o.moved@) == file_names(s@)
            &&& dir_wf(o.source@)
            &&& dir_wf(o.dest@)
        }),
{
    let (s, d) = match (source, dest) {
        (Some(s), Some(d)) => (s, d),
        _ => {
            return Err(FsError::NotFound);
        },
    };
    let ghost all = s@;
    let ghost dall = d@;
    let mut kept_src: Vec<Entry> = Vec::new();
    let mut moved_entries: Vec<Entry> = Vec::new();
    let mut moved: Vec<Vec<u8>> = Vec::new();
    let mut i: usize = 0;
    proof {
        assert(all.subrange(0, all.len() as int) =~= all);
        assert(entries_view(kept_src@) + all =~= all);
        assert(entries_view(moved_entries@) + all =~= all);
        assert(entries_view(kept_src@) + residual_entries(all) =~= residual_entries(all));
        assert(entries_view(moved_entries@) + file_entries(all) =~= file_entries(all));
        assert(names_view(moved@) + file_names(all) =~= file_names(all));
    }
    while i < s.entries.len()
        invariant
            i <= s.entries.len(),
            all == entries_view(s.entries@),
            all.len() == s.entries@.len(),
            residual_entries(all) == entries_view(kept_src@) + residual_entries(
                all.subrange(i as int, all.len() as int),
            ),
            file_entries(all) == entries_view(moved_entries@) + file_entries(
                all.subrange(i as int, all.len() as int),
            ),
            file_names(all) == names_view(moved@) + file_names(
                all.subrange(i as int, all.len() as int),
            ),
            dir_wf(entries_view(kept_src@) + all.subrange(i as int, all.len() as int)),
            dir_wf(entries_view(moved_entries@) + all.subrange(i as int, all.len() as int)),
        decreases s.entries.len() - i,
    {
        let ghost suf = all.subrange(i as int, all.len() as int);
        let ghost kept_before = entries_view(kept_src@);
        let ghost moved_before = entries_view(moved_entries@);
        let ghost mnames_before = names_view(moved@);
        proof {
            assert(suf[0] == all[i as int]);
            assert(suf.drop_first() =~= all.subrange(i + 1, all.len() as int));
        }
        if is_file_entry(&s.entries[i]) {
            moved.push(clone_name(&s.entries[i].name));
            moved_entries.push(s.entries[i].clone());
            proof {
                let e = all[i as int];
                assert(entries_view(moved_entries@) =~= moved_before + seq![e]);
                assert(names_view(moved@) =~= mnames_before + seq![e.name]);
                assert(moved_before + (seq![e] + file_entries(suf.drop_first())) =~= (moved_before
                    + seq![e]) + file_entries(suf.drop_first()));
                assert(mnames_before + (seq![e.name] + file_names(suf.drop_first()))
                    =~= (mnames_before + seq![e.name]) + file_names(suf.drop_first()));
                // the moved-side concatenation is the same sequence as before
                assert((moved_before + seq![e]) + suf.drop_first() =~= moved_before + suf);
                // the kept-side concatenation drops one element
                assert(kept_before + suf.drop_first() =~= (kept_before + suf).remove(
                    kept_before.len() as int,
                ));
                lemma_wf_remove(kept_before + suf, kept_before.len() as int);
            }
        } else {
            kept_src.push(s.entries[i].clone());
            proof {
                let e = all[i as int];
                assert(entries_view(kept_src@) =~= kept_before + seq![e]);
                assert(kept_before + (seq![e] + residual_entries(suf.drop_first()))
                    =~= (kept_before + seq![e]) + residual_entries(suf.drop_first()));
                assert((kept_before + seq![e]) + suf.drop_first() =~= kept_before + suf);
                assert(moved_before + suf.drop_first() =~= (moved_before + suf).remove(
                    moved_before.len() as int,
                ));
                lemma_wf_remove(moved_before + suf, moved_before.len() as int);
            }
        }
        i = i + 1;
    }
    let ghost mnames = names_view(moved@);
    proof {
        assert(all.subrange(all.len() as int, all.len() as int) =~= Seq::<EntryModel>::empty());
        assert(entries_view(kept_src@) + Seq::<EntryModel>::empty() =~= entries_view(kept_src@));
        assert(entries_view(moved_entries@) + Seq::<EntryModel>::empty() =~= entries_view(
            moved_entries@,
        ));
        assert(mnames + Seq::<Seq<u8>>::empty() =~= mnames);
        assert(entries_view(kept_src@) =~= residual_entries(all));
        assert(entries_view(moved_entries@) =~= file_entries(all));
        assert(mnames =~= file_names(all));
    }
    let mut new_dest: Vec<Entry> = Vec::new();
    let mut j: usize = 0;
    proof {
        assert(dall.subrange(0, dall.len() as int) =~= dall);
        assert(entries_view(new_dest@) + dall =~= dall);
        assert(entries_view(new_dest@) + kept_dest(dall, mnames) =~= kept_dest(dall, mnames));
    }
    while j < d.entries.len()
        invariant
            j <= d.entries.len(),
            dall == entries_view(d.entries@),
            dall.len() == d.entries@.len(),
            mnames == names_view(moved@),
            kept_dest(dall, mnames) == entries_view(new_dest@) + kept_dest(
                dall.subrange(j as int, dall.len() as int),
                mnames,
            ),
            dir_wf(entries_view(new_dest@) + dall.subrange(j as int, dall.len() as int)),
            forall|k: int| 0 <= k < new_dest@.len()
                ==> !mnames.contains(#[trigger] entries_view(new_dest@)[k].name),
        decreases d.entries.len() - j,
    {
        let ghost dsuf = dall.subrange(j as int, dall.len() as int);
        let ghost dest_before = entries_view(new_dest@);
        proof {
            assert(dsuf[0] == dall[j as int]);
            assert(dsuf.drop_first() =~= dall.subrange(j + 1, dall.len() as int));
        }
        if name_in_list(&moved, &d.entries[j].name) {
            proof {
                assert(dest_before + dsuf.drop_first() =~= (dest_before + dsuf).remove(
                    dest_before.len() as int,
                ));
                lemma_wf_remove(dest_before + dsuf, dest_before.len() as int);
            }
        } else {
            new_dest.push(d.entries[j].clone());
            proof {
                let e = dall[j as int];
                assert(entries_view(new_dest@) =~= dest_before + seq![e]);
                assert(dest_before + (seq![e] + kept_dest(dsuf.drop_first(), mnames))
                    =~= (dest_before + seq![e]) + kept_dest(dsuf.drop_first(), mnames));
                assert((dest_before + seq![e]) + dsuf.drop_first() =~= dest_before + dsuf);
            }
        }
        j = j + 1;
    }
    proof {
        assert(dall.subrange(dall.len() as int, dall.len() as int) =~= Seq::<EntryModel>::empty());
        assert(entries_view(new_dest@) + Seq::<EntryModel>::empty() =~= entries_view(new_dest@));
        assert(entries_view(new_dest@) =~= kept_dest(dall, mnames));
    }
    let ghost kept = entries_view(new_dest@);
    let ghost arriving = entries_view(moved_entries@);
    new_dest.append(&mut moved_entries);
    proof {
        assert(entries_view(new_dest@) =~= kept + arriving);
        let merged = kept + arriving;
        lemma_file_entries_names(all);
        assert forall|a: int, b: int| 0 <= a < b < merged.len() implies merged[a].name
            != merged[b].name by {
            if b < kept.len() {
                assert(kept[a].name != kept[b].name);
            } else if a >= kept.len() {
                assert(arriving[a - kept.len()].name != arriving[b - kept.len()].name);
            } else {
                let bn = arriving[b - kept.len()].name;
                assert(bn == file_names(all)[b - kept.len()]);
                assert(mnames.contains(bn));
                assert(!mnames.contains(kept[a].name));
            }
        }
        assert(merged =~= merged_dest(all, dall));
    }
    Ok(MoveOutcome { source: Directory { entries: kept_src }, dest: Directory { entries: new_dest }, moved })
}

/// Copies a snapshot's entries.
fn clone_entries(es: &Vec<Entry>) -> (r: Vec<Entry>)
    ensures
        entries_view(r@) == entries_view(es@),
{
    let mut r: Vec<Entry> = Vec::new();
    let mut i: usize = 0;
    while i < es.len()
        invariant
            i <= es.len(),
            entries_view(r@) == entries_view(es@).subrange(0, i as int),
        decreases es.len() - i,
    {
        let e = es[i].clone();
        let ghost ev = e@;
        let ghost before = r@;
        r.push(e);
        proof {
            assert(entries_view(r@) =~= entries_view(before) + seq![ev]);
            assert(entries_view(before) + seq![ev] =~= entries_view(es@).subrange(
                0,
                i + 1 as int,
            ));
        }
        i = i + 1;
    }
    assert(entries_view(r@) =~= entries_view(es@));
    r
}

/// Runs one visibility batch: the files in order, first conflict stops the
/// batch, everything before it stays done.
#[verifier::loop_isolation(false)]
fn toggle_files(op: ToggleOp, platform: Platform, dir: &Option<Directory>, files: &Vec<Vec<u8>>) -> (r:
    Result<BatchOutcome, FsError>)
    requires
        dir matches Some(d) ==> dir_wf(d@),
    ensures
        dir is None <==> r is Err,
        r matches Err(e) ==> e == FsError::NotFound,
        dir matches Some(d) ==> (r matches Ok(o) && outcome_matches(
            o,
            toggle_batch(op, platform, d@, names_view(files@)),
        )),
{
    let d = match dir {
        Some(d) => d,
        None => {
            return Err(FsError::NotFound);
        },
    };
    let ghost orig = d@;
    let ghost fnames = names_view(files@);
    let ghost full = toggle_batch(op, platform, orig, fnames);
    let mut cur: Vec<Entry> = clone_entries(&d.entries);
    let mut actions: Vec<Action> = Vec::new();
    let mut i: usize = 0;
    proof {
        assert(fnames.subrange(0, fnames.len() as int) =~= fnames);
        assert(actions_view(actions@) + full.actions =~= full.actions);
    }
    while i < files.len()
        invariant
            i <= files.len(),
            fnames == names_view(files@),
            fnames.len() == files@.len(),
            full == toggle_batch(op, platform, orig, fnames),
            dir_wf(entries_view(cur@)),
            full.entries == toggle_batch(
                op,
                platform,
                entries_view(cur@),
                fnames.subrange(i as int, fnames.len() as int),
            ).entries,
            full.actions == actions_view(actions@) + toggle_batch(
                op,
                platform,
                entries_view(cur@),
                fnames.subrange(i as int, fnames.len() as int),
            ).actions,
            full.conflict == toggle_batch(
                op,
                platform,
                entries_view(cur@),
                fnames.subrange(i as int, fnames.len() as int),
            ).conflict,
        decreases files.len() - i,
    {
        let ghost cur_es = entries_view(cur@);
        let ghost suf = fnames.subrange(i as int, fnames.len() as int);
        let ghost acts_before = actions_view(actions@);
        proof {
            assert(suf[0] == fnames[i as int]);
            assert(suf[0] == files@[i as int]@);
            assert(suf.drop_first() =~= fnames.subrange(i + 1, fnames.len() as int));
            lemma_toggle_step_wf(op, platform, cur_es, suf[0]);
        }
        let ghost step = toggle_step(op, platform, cur_es, suf[0]);
        let f = &files[i];
        match platform {
            Platform::AttributeFlag => {
                match find_entry(&cur, f) {
                    None => {
                        proof {
                            assert(step == skip_step(cur_es));
                            assert(acts_before + (step.actions + toggle_batch(
                                op,
                                platform,
                                step.entries,
                                suf.drop_first(),
                            ).actions) =~= acts_before + toggle_batch(
                                op,
                                platform,
                                step.entries,
                                suf.drop_first(),
                            ).actions);
                        }
                    },
                    Some(idx) => {
                        proof {
                            lemma_index_unique(cur_es, f@, idx as int);
                        }
                        let mut e = cur.remove(idx);
                        let a2 = match op {
                            ToggleOp::Hide => e.attrs | HIDDEN_FLAG | SYSTEM_FLAG,
                            ToggleOp::Show => e.attrs & !(HIDDEN_FLAG | SYSTEM_FLAG),
                        };
                        let ghost e2 = EntryModel { name: e@.name, kind: e@.kind, attrs: a2 };
                        e.attrs = a2;
                        cur.insert(idx, e);
                        actions.push(Action::SetAttributes { name: clone_name(f), attrs: a2 });
                        proof {
                            assert(entries_view(cur@) =~= cur_es.update(idx as int, e2));
                            assert(entries_view(cur@) == step.entries);
                            assert(actions_view(actions@) =~= acts_before + step.actions);
                            assert(acts_before + (step.actions + toggle_batch(
                                op,
                                platform,
                                step.entries,
                                suf.drop_first(),
                            ).actions) =~= (acts_before + step.actions) + toggle_batch(
                                op,
                                platform,
                                step.entries,
                                suf.drop_first(),
                            ).actions);
                        }
                    },
                }
            },
            Platform::NamingConvention => {
                let (src_name, dst_name) = match op {
                    ToggleOp::Hide => (clone_name(f), make_hidden_name(f)),
                    ToggleOp::Show => {
                        let vis = make_visible_name(f);
                        let hid = make_hidden_name(&vis);
                        (hid, vis)
                    },
                };
                match find_entry(&cur, &src_name) {
                    None => {
                        proof {
                            assert(step == skip_step(cur_es));
                            assert(acts_before + (step.actions + toggle_batch(
                                op,
                                platform,
                                step.entries,
                                suf.drop_first(),
                            ).actions) =~= acts_before + toggle_batch(
                                op,
                                platform,
                                step.entries,
                                suf.drop_first(),
                            ).actions);
                        }
                    },
                    Some(idx) => {
                        match find_entry(&cur, &dst_name) {
                            Some(_) => {
                                proof {
                                    assert(step.conflict == Some(dst_name@));
                                    assert(step.entries == cur_es);
                                    assert(full.conflict == Some(dst_name@));
                                    assert(full.entries == cur_es);
                                    assert(full.actions =~= acts_before);
                                }
                                return Ok(BatchOutcome {
                                    dir: Directory { entries: cur },
                                    actions,
                                    failure: Some(Failure {
                                        name: dst_name,
                                        error: FsError::AlreadyExists,
                                    }),
                                });
                            },
                            None => {
                                proof {
                                    lemma_index_unique(cur_es, src_name@, idx as int);
                                }
                                let mut e = cur.remove(idx);
                                let ghost e2 = EntryModel {
                                    name: dst_name@,
                                    kind: e@.kind,
                                    attrs: e@.attrs,
                                };
                                e.name = clone_name(&dst_name);
                                cur.insert(idx, e);
                                actions.push(Action::Rename { from: src_name, to: dst_name });
                                proof {
                                    assert(entries_view(cur@) =~= cur_es.update(idx as int, e2));
                                    assert(entries_view(cur@) == step.entries);
                                    assert(actions_view(actions@) =~= acts_before + step.actions);
                                    assert(acts_before + (step.actions + toggle_batch(
                                        op,
                                        platform,
                                        step.entries,
                                        suf.drop_first(),
                                    ).actions) =~= (acts_before + step.actions) + toggle_batch(
                                        op,
                                        platform,
                                        step.entries,
                                        suf.drop_first(),
                                    ).actions);
                                }
                            },
                        }
                    },
                }
            },
        }
        i = i + 1;
    }
    proof {
        assert(fnames.subrange(fnames.len() as int, fnames.len() as int) =~= Seq::<
            Seq<u8>,
        >::empty());
        assert(actions_view(actions@) + Seq::<ActionModel>::empty() =~= actions_view(actions@));
    }
    Ok(BatchOutcome { dir: Directory { entries: cur }, actions, failure: None })
}

/// Marks each named file hidden. A missing directory is `NotFound`; a file
/// with no entry is skipped silently; on the naming-convention platform an
/// already-existing hidden-side counterpart stops the batch with
/// `AlreadyExists`, keeping what the completed prefix did.
pub fn hide_files_in_directory(platform: Platform, dir: &Option<Directory>, files: &Vec<Vec<u8>>) -> (r:
    Result<BatchOutcome, FsError>)
    requires
        dir matches Some(d) ==> dir_wf(d@),
    ensures
        dir is None <==> r is Err,
        r matches Err(e) ==> e == FsError::NotFound,
        dir matches Some(d) ==> (r matches Ok(o) && outcome_matches(
            o,
            toggle_batch(ToggleOp::Hide, platform, d@, names_view(files@)),
        )),
{
    toggle_files(ToggleOp::Hide, platform, dir, files)
}

/// Marks each named file visible again. Names may be given in visible or
/// hidden form on the naming-convention platform; a missing hidden-side
/// counterpart is skipped silently, and an already-existing visible-side
/// file stops the batch with `AlreadyExists`.
pub fn show_files_in_directory(platform: Platform, dir: &Option<Directory>, files: &Vec<Vec<u8>>) -> (r:
    Result<BatchOutcome, FsError>)
    requires
        dir matches Some(d) ==> dir_wf(d@),
    ensures
        dir is None <==> r is Err,
        r matches Err(e) ==> e == FsError::NotFound,
        dir matches Some(d) ==> (r matches Ok(o) && outcome_matches(
            o,
            toggle_batch(ToggleOp::Show, platform, d@, names_view(files@)),
        )),
{
    toggle_files(ToggleOp::Show, platform, dir, files)
}

} // verus!
