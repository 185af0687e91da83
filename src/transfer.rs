//! Plans for moving save files between directories.
//!
//! A plan is a list of actions on file names. Carrying it out is left to the
//! caller; `apply` says what it does to the set of file names of the
//! destination directory it is carried out on, where source and destination
//! are distinct directories (carried out on one directory, a transfer's
//! deletions would remove the files it then copies). A transfer copies: it
//! never touches the source's files.

use vstd::prelude::*;
use crate::scan::{
    Entry, EntryKind, NamePattern, list_save_files, names_matching, names_of, save_prefix,
    is_save_name, lemma_names_matching_members, lemma_names_matching_unique, unique_names,
};

verus! {

/// One step of a plan.
pub enum Action {
    /// Remove the named save file from the destination.
    Delete(String),
    /// Copy the named save file from the source into the destination.
    Copy(String),
}

pub enum ActionView {
    Delete(Seq<char>),
    Copy(Seq<char>),
}

impl View for Action {
    type V = ActionView;

    open spec fn view(&self) -> ActionView {
        match self {
            Action::Delete(n) => ActionView::Delete(n@),
            Action::Copy(n) => ActionView::Copy(n@),
        }
    }
}

pub open spec fn actions_of(v: Seq<Action>) -> Seq<ActionView> {
    v.map_values(|a: Action| a@)
}

/// Names of the save files of a listing, in listing order.
pub open spec fn save_names(es: Seq<Entry>) -> Seq<Seq<char>> {
    names_matching(es, EntryKind::File, NamePattern::StartsWith(save_prefix()))
}

/// The set of names of the files of a listing.
pub open spec fn file_names(es: Seq<Entry>) -> Set<Seq<char>> {
    Set::new(|n: Seq<char>| exists|i: int| 0 <= i < es.len() && es[i].kind == EntryKind::File && es[i].name@ == n)
}

/// The save files among a set of file names.
pub open spec fn saves_in(files: Set<Seq<char>>) -> Set<Seq<char>> {
    files.filter(|n: Seq<char>| is_save_name(n))
}

pub open spec fn deletions(names: Seq<Seq<char>>) -> Seq<ActionView> {
    names.map_values(|n: Seq<char>| ActionView::Delete(n))
}

pub open spec fn copies(names: Seq<Seq<char>>) -> Seq<ActionView> {
    names.map_values(|n: Seq<char>| ActionView::Copy(n))
}

/// What carrying out `acts` does to the set of file names of the destination,
/// where the source is another directory.
pub open spec fn apply(files: Set<Seq<char>>, acts: Seq<ActionView>) -> Set<Seq<char>>
    decreases acts.len(),
{
    if acts.len() == 0 {
        files
    } else {
        let before = apply(files, acts.drop_last());
        match acts.last() {
            ActionView::Delete(n) => before.remove(n),
            ActionView::Copy(n) => before.insert(n),
        }
    }
}

/// The plan that clears a directory of its save files.
pub open spec fn clear_plan(es: Seq<Entry>) -> Seq<ActionView> {
    deletions(save_names(es))
}

/// The plan that replaces the save files of `to` with those of `from`.
pub open spec fn transfer_plan_of(from: Seq<Entry>, to: Seq<Entry>) -> Seq<ActionView> {
    deletions(save_names(to)) + copies(save_names(from))
}

proof fn lemma_apply_concat(files: Set<Seq<char>>, a: Seq<ActionView>, b: Seq<ActionView>)
    ensures
        apply(files, a + b) == apply(apply(files, a), b),
    decreases b.len(),
{
    if b.len() == 0 {
        assert(a + b =~= a);
    } else {
        assert((a + b).drop_last() =~= a + b.drop_last());
        assert((a + b).last() == b.last());
        lemma_apply_concat(files, a, b.drop_last());
    }
}

proof fn lemma_apply_deletions(files: Set<Seq<char>>, names: Seq<Seq<char>>)
    ensures
        apply(files, deletions(names)) == files.filter(|n: Seq<char>| !names.contains(n)),
    decreases names.len(),
{
    if names.len() == 0 {
        assert(files.filter(|n: Seq<char>| !names.contains(n)) =~= files);
    } else {
        let init = names.drop_last();
        lemma_apply_deletions(files, init);
        assert(deletions(names).drop_last() =~= deletions(init));
        assert(apply(files, deletions(names)) =~= files.filter(|n: Seq<char>| !names.contains(n))) by {
            assert forall|n: Seq<char>| names.contains(n) <==> (init.contains(n) || n == names.last()) by {
                if names.contains(n) {
                    let k = choose|k: int| 0 <= k < names.len() && names[k] == n;
                    if k < names.len() - 1 {
                        assert(init[k] == n);
                    }
                }
                if init.contains(n) {
                    let k = choose|k: int| 0 <= k < init.len() && init[k] == n;
                    assert(names[k] == n);
                }
                if n == names.last() {
                    assert(names[names.len() - 1] == n);
                }
            }
        }
    }
}

proof fn lemma_apply_copies(files: Set<Seq<char>>, names: Seq<Seq<char>>)
    ensures
        apply(files, copies(names)) == files.union(Set::new(|n: Seq<char>| names.contains(n))),
    decreases names.len(),
{
    if names.len() == 0 {
        assert(files.union(Set::new(|n: Seq<char>| names.contains(n))) =~= files);
    } else {
        let init = names.drop_last();
        lemma_apply_copies(files, init);
        assert(copies(names).drop_last() =~= copies(init));
        assert(apply(files, copies(names)) =~= files.union(Set::new(|n: Seq<char>| names.contains(n)))) by {
            assert forall|n: Seq<char>| names.contains(n) <==> (init.contains(n) || n == names.last()) by {
                if names.contains(n) {
                    let k = choose|k: int| 0 <= k < names.len() && names[k] == n;
                    if k < names.len() - 1 {
                        assert(init[k] == n);
                    }
                }
                if init.contains(n) {
                    let k = choose|k: int| 0 <= k < init.len() && init[k] == n;
                    assert(names[k] == n);
                }
                if n == names.last() {
                    assert(names[names.len() - 1] == n);
                }
            }
        }
    }
}

/// The save-file scan of a listing names exactly its files that carry the save
/// marker, whatever else the listing holds; from a listing without repeated
/// names it names none twice.
pub proof fn lemma_save_listing_exact(es: Seq<Entry>)
    ensures
        save_names(es).to_set() == saves_in(file_names(es)),
        unique_names(es) ==> save_names(es).no_duplicates(),
{
    lemma_names_matching_members(es, EntryKind::File, NamePattern::StartsWith(save_prefix()));
    assert(save_names(es).to_set() =~= saves_in(file_names(es)));
    if unique_names(es) {
        lemma_names_matching_unique(es, EntryKind::File, NamePattern::StartsWith(save_prefix()));
    }
}

/// Clearing a directory of its save files leaves no save file in it and every
/// other file where it was.
pub proof fn lemma_clear_leaves_no_saves(es: Seq<Entry>)
    ensures
        apply(file_names(es), clear_plan(es)) == file_names(es).filter(|n: Seq<char>| !is_save_name(n)),
        saves_in(apply(file_names(es), clear_plan(es))) == Set::<Seq<char>>::empty(),
{
    let files = file_names(es);
    let names = save_names(es);
    lemma_apply_deletions(files, names);
    lemma_names_matching_members(es, EntryKind::File, NamePattern::StartsWith(save_prefix()));
    assert(files.filter(|n: Seq<char>| !names.contains(n)) =~= files.filter(|n: Seq<char>| !is_save_name(n)));
    assert(saves_in(apply(files, clear_plan(es))) =~= Set::<Seq<char>>::empty());
}

/// Between distinct directories, a transfer leaves the destination with
/// exactly the source's save files, by name, and with every file of its own
/// that is not a save file.
pub proof fn lemma_transfer_mirrors_saves(from: Seq<Entry>, to: Seq<Entry>)
    ensures
        saves_in(apply(file_names(to), transfer_plan_of(from, to))) == saves_in(file_names(from)),
        forall|n: Seq<char>| !is_save_name(n) ==> (
            apply(file_names(to), transfer_plan_of(from, to)).contains(n)
                <==> file_names(to).contains(n)),
{
    let cleared = apply(file_names(to), clear_plan(to));
    lemma_clear_leaves_no_saves(to);
    lemma_apply_concat(file_names(to), clear_plan(to), copies(save_names(from)));
    lemma_apply_copies(cleared, save_names(from));
    lemma_names_matching_members(from, EntryKind::File, NamePattern::StartsWith(save_prefix()));
    let after = apply(file_names(to), transfer_plan_of(from, to));
    assert(saves_in(after) =~= saves_in(file_names(from))) by {
        assert forall|n: Seq<char>| saves_in(after).contains(n) implies saves_in(file_names(from)).contains(n) by {
            assert(!saves_in(cleared).contains(n));
        }
    }
}

fn push_actions(out: &mut Vec<Action>, names: Vec<String>, delete: bool)
    ensures
        actions_of(final(out)@) == actions_of(old(out)@) + (if delete {
            deletions(names_of(names@))
        } else {
            copies(names_of(names@))
        }),
{
    let ghost start = old(out)@;
    let ghost added = if delete { deletions(names_of(names@)) } else { copies(names_of(names@)) };
    let mut names = names;
    let ghost all = names@;
    let len = names.len();
    let mut i: usize = 0;
    while names.len() > 0
        invariant
            i + names@.len() == all.len(),
            all.len() == len,
            names@ == all.skip(i as int),
            added == (if delete { deletions(names_of(all)) } else { copies(names_of(all)) }),
            actions_of(out@) == actions_of(start) + added.take(i as int),
        decreases names@.len(),
    {
        let ghost prev = out@;
        let n = names.remove(0);
        assert(n == all[i as int]);
        assert(names_of(all)[i as int] == n@);
        assert(added[i as int] == (if delete { ActionView::Delete(n@) } else { ActionView::Copy(n@) }));
        if delete {
            out.push(Action::Delete(n));
        } else {
            out.push(Action::Copy(n));
        }
        assert(out@ == prev.push(out@.last()));
        assert(actions_of(out@) =~= actions_of(prev).push(added[i as int]));
        assert(actions_of(out@) =~= actions_of(start) + added.take(i + 1));
        assert(names@ =~= all.skip(i + 1));
        i += 1;
    }
    assert(added.take(i as int) =~= added);
}

/// The actions that remove every save file of a listing, in listing order.
pub fn clear_save_files(entries: &Vec<Entry>) -> (r: Vec<Action>)
    ensures
        actions_of(r@) == clear_plan(entries@),
{
    let mut out: Vec<Action> = Vec::new();
    push_actions(&mut out, list_save_files(entries), true);
    assert(actions_of(out@) =~= clear_plan(entries@));
    out
}

/// The actions that remove every save file of the destination `to` and then
/// copy in every save file of the source `from`.
pub fn copy_save_files(from: &Vec<Entry>, to: &Vec<Entry>) -> (r: Vec<Action>)
    ensures
        actions_of(r@) == transfer_plan_of(from@, to@),
{
    let mut out: Vec<Action> = Vec::new();
    push_actions(&mut out, list_save_files(to), true);
    push_actions(&mut out, list_save_files(from), false);
    assert(actions_of(out@) =~= transfer_plan_of(from@, to@));
    out
}

} // verus!
