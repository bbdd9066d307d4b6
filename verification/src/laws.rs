//! Laws that relate the operations to each other: listing is blind to
//! non-file entries, moving into an empty directory transfers exactly the
//! files, hiding is idempotent, and a hide followed by a show restores a
//! file to the listing under its original name.

use vstd::prelude::*;

use crate::model::EntryModel;
use crate::model::HIDE_MARKER;
use crate::model::HIDDEN_FLAG;
use crate::model::SYSTEM_FLAG;
use crate::model::dir_wf;
use crate::model::file_entries;
use crate::model::file_names;
use crate::model::has_name;
use crate::model::hidden_name;
use crate::model::index_of_name;
use crate::model::is_file;
use crate::model::lemma_file_names_contains;
use crate::model::lemma_index_unique;
use crate::model::lemma_visible_name_not_marked;
use crate::model::residual_entries;
use crate::model::visible_name;
use crate::ops::Platform;
use crate::ops::is_hidden;
use crate::ops::ToggleOp;
use crate::ops::kept_dest;
use crate::ops::lemma_toggle_batch_single;
use crate::ops::merged_dest;
use crate::ops::toggle_batch;
use crate::ops::toggle_step;
use crate::ops::lemma_toggle_step_wf;

verus! {

/// Removing a non-file entry from a snapshot leaves the listing unchanged:
/// what `list_files` returns is the same irrespective of subdirectory
/// presence.
pub proof fn lemma_listing_ignores_subdirs(es: Seq<EntryModel>, i: int)
    requires
        0 <= i < es.len(),
        !is_file(es[i]),
    ensures
        file_names(es.remove(i)) == file_names(es),
    decreases es.len(),
{
    let m = es.drop_first();
    if i == 0 {
        assert(es.remove(0) =~= m);
    } else {
        assert(es.remove(i).drop_first() =~= m.remove(i - 1));
        assert(es.remove(i)[0] == es[0]);
        lemma_listing_ignores_subdirs(m, i - 1);
    }
}

/// The listing of the file entries alone is the listing of the whole
/// snapshot.
pub proof fn lemma_file_names_of_file_entries(es: Seq<EntryModel>)
    ensures
        file_names(file_entries(es)) == file_names(es),
    decreases es.len(),
{
    if es.len() == 0 {
    } else {
        let m = es.drop_first();
        lemma_file_names_of_file_entries(m);
        if is_file(es[0]) {
            assert((seq![es[0]] + file_entries(m)).drop_first() =~= file_entries(m));
            assert((seq![es[0]] + file_entries(m))[0] == es[0]);
        }
    }
}

/// The entries a move leaves behind in the source hold no regular file.
pub proof fn lemma_residual_has_no_files(es: Seq<EntryModel>)
    ensures
        file_names(residual_entries(es)) == Seq::<Seq<u8>>::empty(),
    decreases es.len(),
{
    if es.len() == 0 {
    } else {
        let m = es.drop_first();
        lemma_residual_has_no_files(m);
        if !is_file(es[0]) {
            assert((seq![es[0]] + residual_entries(m)).drop_first() =~= residual_entries(m));
            assert((seq![es[0]] + residual_entries(m))[0] == es[0]);
        }
    }
}

/// Moving from a source into an empty destination leaves the source with no
/// listed file and the destination listing exactly the source's files, in
/// order.
pub proof fn lemma_move_into_empty(s: Seq<EntryModel>, d: Seq<EntryModel>)
    requires
        d.len() == 0,
    ensures
        file_names(residual_entries(s)) == Seq::<Seq<u8>>::empty(),
        merged_dest(s, d) == file_entries(s),
        file_names(merged_dest(s, d)) == file_names(s),
{
    lemma_residual_has_no_files(s);
    assert(kept_dest(d, file_names(s)) == Seq::<EntryModel>::empty());
    assert(merged_dest(s, d) =~= file_entries(s));
    lemma_file_names_of_file_entries(s);
}

/// Sets of attribute bits are idempotent to apply.
proof fn lemma_set_bits_idempotent(a: u32, m1: u32, m2: u32)
    ensures
        a | m1 | m2 | m1 | m2 == a | m1 | m2,
{
    assert(a | m1 | m2 | m1 | m2 == a | m1 | m2) by (bit_vector);
}

/// Hiding a file twice in a row leaves the snapshot exactly as hiding it
/// once did, on both platforms; on the attribute-flag platform neither call
/// can fail.
pub proof fn lemma_hide_idempotent(platform: Platform, es: Seq<EntryModel>, f: Seq<u8>)
    requires
        dir_wf(es),
    ensures
        ({
            let once = toggle_batch(ToggleOp::Hide, platform, es, seq![f]);
            let twice = toggle_batch(ToggleOp::Hide, platform, once.entries, seq![f]);
            &&& twice.entries == once.entries
            &&& (platform is AttributeFlag ==> once.conflict is None && twice.conflict is None)
        }),
{
    let fs = seq![f];
    let s1 = toggle_step(ToggleOp::Hide, platform, es, f);
    lemma_toggle_step_wf(ToggleOp::Hide, platform, es, f);
    let once = toggle_batch(ToggleOp::Hide, platform, es, fs);
    lemma_toggle_batch_single(ToggleOp::Hide, platform, es, f);
    assert(once == s1);
    let s2 = toggle_step(ToggleOp::Hide, platform, once.entries, f);
    lemma_toggle_batch_single(ToggleOp::Hide, platform, once.entries, f);
    match platform {
        Platform::AttributeFlag => {
            if has_name(es, f) {
                let i = index_of_name(es, f);
                assert(0 <= i < es.len() && es[i].name == f);
                let e2 = EntryModel {
                    name: es[i].name,
                    kind: es[i].kind,
                    attrs: es[i].attrs | HIDDEN_FLAG | SYSTEM_FLAG,
                };
                let upd = es.update(i, e2);
                assert(once.entries == upd);
                lemma_index_unique(upd, f, i);
                lemma_set_bits_idempotent(es[i].attrs, HIDDEN_FLAG, SYSTEM_FLAG);
                let e3 = EntryModel {
                    name: upd[i].name,
                    kind: upd[i].kind,
                    attrs: upd[i].attrs | HIDDEN_FLAG | SYSTEM_FLAG,
                };
                assert(e3 == e2);
                assert(upd.update(i, e3) =~= upd);
            }
        }
        Platform::NamingConvention => {
            if !has_name(es, f) {
                assert(s1.entries == es);
            } else if has_name(es, hidden_name(f)) {
                assert(once.entries == es);
            } else {
                let i = index_of_name(es, f);
                assert(0 <= i < es.len() && es[i].name == f);
                let e2 = EntryModel { name: hidden_name(f), kind: es[i].kind, attrs: es[i].attrs };
                let upd = es.update(i, e2);
                assert(once.entries == upd);
                assert(hidden_name(f).len() == f.len() + 1);
                assert(!has_name(upd, f)) by {
                    if has_name(upd, f) {
                        let j = choose|j: int| 0 <= j < upd.len() && upd[j].name == f;
                        if j == i {
                            assert(upd[j].name == hidden_name(f));
                        } else {
                            assert(es[j].name == f);
                            lemma_index_unique(es, f, j);
                        }
                    }
                }
                assert(s2.entries == upd);
            }
        }
    }
}

/// Setting the hidden bit leaves it set, whatever the other bits are.
proof fn lemma_set_bits_hide(a: u32)
    ensures
        (a | 2u32 | 4u32) & 2u32 != 0,
{
    assert((a | 2u32 | 4u32) & 2u32 != 0) by (bit_vector);
}

/// Clearing the hidden and system bits leaves the hidden bit clear.
proof fn lemma_clear_bits_show(a: u32)
    ensures
        (a & !(2u32 | 4u32)) & 2u32 == 0,
{
    assert((a & !(2u32 | 4u32)) & 2u32 == 0) by (bit_vector);
}

/// Hiding a present file leaves its entry hidden in the platform's own
/// sense: the two variants store the state differently (attribute bits, a
/// leading marker) but produce the same externally observable outcome.
pub proof fn lemma_hide_makes_hidden(platform: Platform, es: Seq<EntryModel>, f: Seq<u8>, i: int)
    requires
        dir_wf(es),
        0 <= i < es.len(),
        es[i].name == f,
        toggle_batch(ToggleOp::Hide, platform, es, seq![f]).conflict is None,
    ensures
        ({
            let once = toggle_batch(ToggleOp::Hide, platform, es, seq![f]);
            &&& once.entries.len() == es.len()
            &&& is_hidden(platform, once.entries[i])
            &&& once.entries[i].kind == es[i].kind
            &&& (platform is AttributeFlag ==> once.entries[i].name == f)
            &&& (platform is NamingConvention ==> once.entries[i].name == hidden_name(f))
        }),
{
    lemma_index_unique(es, f, i);
    lemma_toggle_batch_single(ToggleOp::Hide, platform, es, f);
    match platform {
        Platform::AttributeFlag => {
            lemma_set_bits_hide(es[i].attrs);
            assert(HIDDEN_FLAG == 2 && SYSTEM_FLAG == 4);
        }
        Platform::NamingConvention => {
            assert(hidden_name(f)[0] == HIDE_MARKER);
        }
    }
}

/// Showing a file leaves its entry visible in the platform's own sense. On
/// the naming-convention platform the entry must stand under the hidden
/// form of the requested name, with the visible form free.
pub proof fn lemma_show_makes_visible(platform: Platform, es: Seq<EntryModel>, f: Seq<u8>, i: int)
    requires
        dir_wf(es),
        0 <= i < es.len(),
        platform is AttributeFlag ==> es[i].name == f,
        platform is NamingConvention ==> es[i].name == hidden_name(visible_name(f))
            && !has_name(es, visible_name(f)),
    ensures
        ({
            let shown = toggle_batch(ToggleOp::Show, platform, es, seq![f]);
            &&& shown.conflict is None
            &&& shown.entries.len() == es.len()
            &&& !is_hidden(platform, shown.entries[i])
            &&& shown.entries[i].kind == es[i].kind
            &&& (platform is AttributeFlag ==> shown.entries[i].name == f)
            &&& (platform is NamingConvention ==> shown.entries[i].name == visible_name(f))
        }),
{
    lemma_toggle_batch_single(ToggleOp::Show, platform, es, f);
    match platform {
        Platform::AttributeFlag => {
            lemma_index_unique(es, f, i);
            lemma_clear_bits_show(es[i].attrs);
            assert(HIDDEN_FLAG == 2 && SYSTEM_FLAG == 4);
        }
        Platform::NamingConvention => {
            let vis = visible_name(f);
            lemma_index_unique(es, hidden_name(vis), i);
            lemma_visible_name_not_marked(f);
        }
    }
}

/// Hiding a file and then showing it restores it to the listing under its
/// original name, on both platforms; on the naming-convention platform the
/// whole snapshot is exactly restored. The name must not itself start with
/// the hide marker: for such names the naming-convention show looks for a
/// counterpart with a single marker and so does not find the doubly-marked
/// form that hiding produced.
pub proof fn lemma_hide_show_round_trip(platform: Platform, es: Seq<EntryModel>, f: Seq<u8>, i: int)
    requires
        dir_wf(es),
        0 <= i < es.len(),
        es[i].name == f,
        is_file(es[i]),
        f.len() > 0,
        f[0] != HIDE_MARKER,
    ensures
        ({
            let once = toggle_batch(ToggleOp::Hide, platform, es, seq![f]);
            let shown = toggle_batch(ToggleOp::Show, platform, once.entries, seq![f]);
            &&& file_names(shown.entries).contains(f)
            &&& (platform is NamingConvention ==> shown.entries == es)
        }),
{
    let fs = seq![f];
    lemma_index_unique(es, f, i);
    lemma_toggle_step_wf(ToggleOp::Hide, platform, es, f);
    let s1 = toggle_step(ToggleOp::Hide, platform, es, f);
    let once = toggle_batch(ToggleOp::Hide, platform, es, fs);
    lemma_toggle_batch_single(ToggleOp::Hide, platform, es, f);
    assert(once == s1);
    let s2 = toggle_step(ToggleOp::Show, platform, once.entries, f);
    let shown = toggle_batch(ToggleOp::Show, platform, once.entries, fs);
    lemma_toggle_batch_single(ToggleOp::Show, platform, once.entries, f);
    assert(shown == s2);
    match platform {
        Platform::AttributeFlag => {
            let e2 = EntryModel {
                name: es[i].name,
                kind: es[i].kind,
                attrs: es[i].attrs | HIDDEN_FLAG | SYSTEM_FLAG,
            };
            let upd = es.update(i, e2);
            assert(once.entries == upd);
            lemma_index_unique(upd, f, i);
            let e3 = EntryModel {
                name: upd[i].name,
                kind: upd[i].kind,
                attrs: upd[i].attrs & !(HIDDEN_FLAG | SYSTEM_FLAG),
            };
            assert(shown.entries == upd.update(i, e3));
            assert(shown.entries[i].name == f);
            assert(is_file(shown.entries[i]));
            lemma_file_names_contains(shown.entries, i);
        }
        Platform::NamingConvention => {
            assert(visible_name(f) == f);
            let hid = hidden_name(f);
            assert(hid.len() == f.len() + 1);
            if has_name(es, hid) {
                assert(once.entries == es);
                assert(has_name(es, f));
                assert(shown.entries == es);
            } else {
                let e2 = EntryModel { name: hid, kind: es[i].kind, attrs: es[i].attrs };
                let upd = es.update(i, e2);
                assert(once.entries == upd);
                assert(dir_wf(upd));
                lemma_index_unique(upd, hid, i);
                assert(!has_name(upd, f)) by {
                    if has_name(upd, f) {
                        let j = choose|j: int| 0 <= j < upd.len() && upd[j].name == f;
                        if j == i {
                            assert(upd[j].name == hid);
                        } else {
                            assert(es[j].name == f);
                            lemma_index_unique(es, f, j);
                        }
                    }
                }
                let e3 = EntryModel { name: f, kind: upd[i].kind, attrs: upd[i].attrs };
                assert(shown.entries == upd.update(i, e3));
                assert(e3 == es[i]);
                assert(upd.update(i, e3) =~= es);
            }
            lemma_file_names_contains(es, i);
        }
    }
}

} // verus!
