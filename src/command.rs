//! What a run does to each profile, in what order.

use vstd::prelude::*;

verus! {

/// The operations asked for on the command line. Every operation present is
/// carried out on every profile.
pub struct Request {
    pub save: Option<String>,
    pub load: Option<String>,
    pub load_save_file: Option<String>,
    pub save_dated: bool,
    pub clear_profile: bool,
    pub load_nth_newest_slot: Option<String>,
    pub delete_nth_newest_slot: Option<String>,
}

/// One operation on one profile.
pub enum Step {
    /// Transfer the profile's save files into the named slot.
    Save(String),
    /// Transfer the named slot's save files into the profile.
    Load(String),
    /// Transfer from the greatest-named "Save Files" directory whose name
    /// contains the text.
    LoadSaveFile(String),
    /// Transfer the profile's save files into a new dated slot.
    SaveDated,
    /// Delete the profile's save files.
    ClearProfile,
    /// Load the slot at the recency rank the text gives.
    LoadNthNewestSlot(String),
    /// Delete the slot at the recency rank the text gives.
    DeleteNthNewestSlot(String),
}

pub enum StepView {
    Save(Seq<char>),
    Load(Seq<char>),
    LoadSaveFile(Seq<char>),
    SaveDated,
    ClearProfile,
    LoadNthNewestSlot(Seq<char>),
    DeleteNthNewestSlot(Seq<char>),
}

impl View for Step {
    type V = StepView;

    open spec fn view(&self) -> StepView {
        match self {
            Step::Save(s) => StepView::Save(s@),
            Step::Load(s) => StepView::Load(s@),
            Step::LoadSaveFile(s) => StepView::LoadSaveFile(s@),
            Step::SaveDated => StepView::SaveDated,
            Step::ClearProfile => StepView::ClearProfile,
            Step::LoadNthNewestSlot(s) => StepView::LoadNthNewestSlot(s@),
            Step::DeleteNthNewestSlot(s) => StepView::DeleteNthNewestSlot(s@),
        }
    }
}

pub open spec fn steps_of(v: Seq<Step>) -> Seq<StepView> {
    v.map_values(|s: Step| s@)
}

pub open spec fn text_of(o: Option<String>) -> Option<Seq<char>> {
    match o {
        Some(s) => Some(s@),
        None => None,
    }
}

pub open spec fn one_if(present: Option<Seq<char>>, make: spec_fn(Seq<char>) -> StepView) -> Seq<StepView> {
    match present {
        Some(s) => seq![make(s)],
        None => seq![],
    }
}

pub open spec fn flag_if(present: bool, step: StepView) -> Seq<StepView> {
    if present {
        seq![step]
    } else {
        seq![]
    }
}

/// The steps carried out on each profile: save, load, load from a save-file
/// directory, dated save, clear, load by rank, delete by rank, each where
/// asked for.
pub open spec fn planned_steps(r: Request) -> Seq<StepView> {
    one_if(text_of(r.save), |s: Seq<char>| StepView::Save(s))
        + one_if(text_of(r.load), |s: Seq<char>| StepView::Load(s))
        + one_if(text_of(r.load_save_file), |s: Seq<char>| StepView::LoadSaveFile(s))
        + flag_if(r.save_dated, StepView::SaveDated)
        + flag_if(r.clear_profile, StepView::ClearProfile)
        + one_if(text_of(r.load_nth_newest_slot), |s: Seq<char>| StepView::LoadNthNewestSlot(s))
        + one_if(text_of(r.delete_nth_newest_slot), |s: Seq<char>| StepView::DeleteNthNewestSlot(s))
}

pub open spec fn step_seq(o: Option<Step>) -> Seq<StepView> {
    match o {
        Some(s) => seq![s@],
        None => seq![],
    }
}

fn push_step(out: &mut Vec<Step>, step: Option<Step>)
    ensures
        steps_of(final(out)@) == steps_of(old(out)@) + step_seq(step),
{
    let ghost start = out@;
    match step {
        Some(s) => {
            out.push(s);
            assert(steps_of(out@) =~= steps_of(start) + step_seq(step));
        },
        None => {
            assert(steps_of(out@) =~= steps_of(start) + step_seq(step));
        },
    }
}

/// The steps to carry out on each profile for a request, in order.
pub fn profile_steps(req: &Request) -> (r: Vec<Step>)
    ensures
        steps_of(r@) == planned_steps(*req),
{
    let mut out: Vec<Step> = Vec::new();
    let save = match &req.save {
        Some(s) => Some(Step::Save(s.clone())),
        None => None,
    };
    assert(step_seq(save) =~= one_if(text_of(req.save), |s: Seq<char>| StepView::Save(s)));
    push_step(&mut out, save);
    let load = match &req.load {
        Some(s) => Some(Step::Load(s.clone())),
        None => None,
    };
    assert(step_seq(load) =~= one_if(text_of(req.load), |s: Seq<char>| StepView::Load(s)));
    push_step(&mut out, load);
    let from_save_files = match &req.load_save_file {
        Some(s) => Some(Step::LoadSaveFile(s.clone())),
        None => None,
    };
    assert(step_seq(from_save_files) =~= one_if(text_of(req.load_save_file), |s: Seq<char>| StepView::LoadSaveFile(s)));
    push_step(&mut out, from_save_files);
    let dated = if req.save_dated { Some(Step::SaveDated) } else { None };
    assert(step_seq(dated) =~= flag_if(req.save_dated, StepView::SaveDated));
    push_step(&mut out, dated);
    let clear = if req.clear_profile { Some(Step::ClearProfile) } else { None };
    assert(step_seq(clear) =~= flag_if(req.clear_profile, StepView::ClearProfile));
    push_step(&mut out, clear);
    let load_nth = match &req.load_nth_newest_slot {
        Some(s) => Some(Step::LoadNthNewestSlot(s.clone())),
        None => None,
    };
    assert(step_seq(load_nth) =~= one_if(text_of(req.load_nth_newest_slot), |s: Seq<char>| StepView::LoadNthNewestSlot(s)));
    push_step(&mut out, load_nth);
    let delete_nth = match &req.delete_nth_newest_slot {
        Some(s) => Some(Step::DeleteNthNewestSlot(s.clone())),
        None => None,
    };
    assert(step_seq(delete_nth) =~= one_if(text_of(req.delete_nth_newest_slot), |s: Seq<char>| StepView::DeleteNthNewestSlot(s)));
    push_step(&mut out, delete_nth);
    assert(steps_of(out@) =~= planned_steps(*req));
    out
}

} // verus!
