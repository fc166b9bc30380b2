//! The panels of a notebook, one per user function: their names, sources and flags.

use vstd::prelude::*;
use vstd::string::StringExecFns;
use crate::memory_tools::LocalStorage;

verus! {

/// Per-panel records, kept in parallel vectors: entry `i` of each belongs to panel `i`.
pub struct InstructionBuffer {
    pub initialized: Vec<bool>,
    pub fns_source: Vec<String>,
    pub interactive: Vec<bool>,
    pub infocus: Vec<bool>,
    pub ids: Vec<String>,
    pub machine_edit_canvas_mode: Vec<bool>,
    pub errors: Vec<String>,
    pub localstorage: Vec<LocalStorage>,
    pub src_path: String,
}

/// What `register` did with a function: refreshed the panel that has its id,
/// telling whether the source changed, or added a panel for it.
pub enum Registration {
    Refreshed { index: usize, changed: bool },
    Added { index: usize },
}

/// The views of a sequence of strings.
pub open spec fn id_views(v: Seq<String>) -> Seq<Seq<char>> {
    v.map_values(|s: String| s@)
}

/// The index of the first panel whose id is `id`, or -1.
pub open spec fn first_index(ids: Seq<Seq<char>>, id: Seq<char>, from: int) -> int
    decreases ids.len() - from,
{
    if from < 0 || from >= ids.len() {
        -1
    } else if ids[from] == id {
        from
    } else {
        first_index(ids, id, from + 1)
    }
}

impl InstructionBuffer {
    /// Every per-panel vector has one entry per panel.
    pub open spec fn wf(&self) -> bool {
        let n = self.ids@.len();
        &&& self.initialized@.len() == n
        &&& self.fns_source@.len() == n
        &&& self.interactive@.len() == n
        &&& self.infocus@.len() == n
        &&& self.machine_edit_canvas_mode@.len() == n
        &&& self.errors@.len() == n
        &&& self.localstorage@.len() == n
    }

    pub fn new() -> (b: InstructionBuffer)
        ensures
            b.wf(),
            b.ids@.len() == 0,
            b.src_path@ == Seq::<char>::empty(),
    {
        InstructionBuffer {
            initialized: Vec::new(),
            fns_source: Vec::new(),
            interactive: Vec::new(),
            infocus: Vec::new(),
            ids: Vec::new(),
            machine_edit_canvas_mode: Vec::new(),
            errors: Vec::new(),
            localstorage: Vec::new(),
            src_path: String::new(),
        }
    }

    /// Adds a panel for the function `id` with source `source`: not yet run, not
    /// interactive, not in focus, with no error.
    pub fn push(&mut self, id: String, source: String)
        requires
            old(self).ids@.len() == old(self).fns_source@.len(),
            old(self).ids@.len() == old(self).interactive@.len(),
        ensures
            final(self).initialized@ == old(self).initialized@.push(false),
            final(self).fns_source@ == old(self).fns_source@.push(source),
            final(self).interactive@ == old(self).interactive@.push(false),
            final(self).infocus@ == old(self).infocus@.push(false),
            final(self).ids@ == old(self).ids@.push(id),
            final(self).machine_edit_canvas_mode@ == old(self).machine_edit_canvas_mode@.push(false),
            final(self).errors@.len() == old(self).errors@.len() + 1,
            final(self).errors@.subrange(0, old(self).errors@.len() as int) == old(self).errors@,
            final(self).errors@.last()@ == Seq::<char>::empty(),
            final(self).localstorage@.len() == old(self).localstorage@.len() + 1,
            final(self).localstorage@.subrange(0, old(self).localstorage@.len() as int) == old(self).localstorage@,
            !final(self).localstorage@.last().initialized,
            final(self).src_path == old(self).src_path,
            old(self).wf() ==> final(self).wf(),
    {
        self.initialized.push(false);
        self.fns_source.push(source);
        self.ids.push(id);
        self.interactive.push(false);
        self.infocus.push(false);
        self.errors.push(String::new());
        self.machine_edit_canvas_mode.push(false);
        self.localstorage.push(LocalStorage::new());
        assert(self.errors@.subrange(0, old(self).errors@.len() as int) =~= old(self).errors@);
        assert(self.localstorage@.subrange(0, old(self).localstorage@.len() as int) =~= old(self).localstorage@);
    }

    /// The number of panels.
    pub fn len(&self) -> (n: usize)
        ensures
            n == self.ids@.len(),
    {
        self.ids.len()
    }

    /// Whether some panel has the id `id`.
    pub fn contains(&self, id: &str) -> (r: bool)
        ensures
            r == id_views(self.ids@).contains(id@),
    {
        match self.get_index(id) {
            Ok(_) => true,
            Err(_) => false,
        }
    }

    /// The index of the first panel with the id `id`.
    pub fn get_index(&self, id: &str) -> (r: Result<usize, String>)
        ensures
            id_views(self.ids@).contains(id@) <==> r is Ok,
            r is Ok ==> r->Ok_0 == first_index(id_views(self.ids@), id@, 0),
            r is Ok ==> r->Ok_0 < self.ids@.len(),
            r is Ok ==> self.ids@[r->Ok_0 as int]@ == id@,
            r is Err ==> r->Err_0@ == "Id '"@ + id@ + "' not found"@,
    {
        let key = id.to_owned();
        let ghost ids = id_views(self.ids@);
        let mut i: usize = 0;
        while i < self.ids.len()
            invariant
                ids == id_views(self.ids@),
                key@ == id@,
                i <= ids.len(),
                forall|k: int| 0 <= k < i ==> ids[k] != id@,
                first_index(ids, id@, 0) == first_index(ids, id@, i as int),
            decreases ids.len() - i,
        {
            if self.ids[i].eq(&key) {
                assert(ids[i as int] == id@);
                return Ok(i);
            }
            i = i + 1;
        }
        assert(!ids.contains(id@)) by {
            if ids.contains(id@) {
                let k = choose|k: int| 0 <= k < ids.len() && ids[k] == id@;
                assert(ids[k] != id@);
            }
        }
        let msg = String::from_str("Id '").concat(id).concat("' not found");
        Err(msg)
    }

    /// Records a new source for panel `index`. A changed source replaces the old one
    /// and marks the panel as not yet run; an unchanged one marks it as run.
    /// Returns whether the source changed.
    pub fn refresh_source(&mut self, index: usize, source: String) -> (changed: bool)
        requires
            index < old(self).fns_source@.len(),
            index < old(self).initialized@.len(),
        ensures
            changed == (old(self).fns_source@[index as int]@ != source@),
            changed ==> final(self).fns_source@ == old(self).fns_source@.update(index as int, source),
            !changed ==> final(self).fns_source@ == old(self).fns_source@,
            final(self).initialized@ == old(self).initialized@.update(index as int, !changed),
            final(self).ids == old(self).ids,
            final(self).interactive == old(self).interactive,
            final(self).infocus == old(self).infocus,
            final(self).errors == old(self).errors,
            final(self).machine_edit_canvas_mode == old(self).machine_edit_canvas_mode,
            final(self).localstorage == old(self).localstorage,
            final(self).src_path == old(self).src_path,
    {
        let changed = !self.fns_source[index].eq(&source);
        if changed {
            self.fns_source.set(index, source);
            self.initialized.set(index, false);
        } else {
            self.initialized.set(index, true);
        }
        changed
    }

    /// Takes in a function found in the source file: the panel with its id gets
    /// the source through `refresh_source`; a new id gets a new panel.
    pub fn register(&mut self, id: String, source: String) -> (r: Registration)
        requires
            old(self).wf(),
        ensures
            final(self).wf(),
            id_views(old(self).ids@).contains(id@) ==> {
                let index = first_index(id_views(old(self).ids@), id@, 0);
                let changed = old(self).fns_source@[index]@ != source@;
                &&& r == Registration::Refreshed { index: index as usize, changed: changed }
                &&& 0 <= index < old(self).ids@.len()
                &&& changed ==> final(self).fns_source@ == old(self).fns_source@.update(index, source)
                &&& !changed ==> final(self).fns_source@ == old(self).fns_source@
                &&& final(self).initialized@ == old(self).initialized@.update(index, !changed)
                &&& final(self).ids == old(self).ids
                &&& final(self).interactive == old(self).interactive
                &&& final(self).infocus == old(self).infocus
                &&& final(self).errors == old(self).errors
                &&& final(self).machine_edit_canvas_mode == old(self).machine_edit_canvas_mode
                &&& final(self).localstorage == old(self).localstorage
                &&& final(self).src_path == old(self).src_path
            },
            !id_views(old(self).ids@).contains(id@) ==> {
                &&& r == Registration::Added { index: old(self).ids@.len() as usize }
                &&& final(self).initialized@ == old(self).initialized@.push(false)
                &&& final(self).fns_source@ == old(self).fns_source@.push(source)
                &&& final(self).interactive@ == old(self).interactive@.push(false)
                &&& final(self).infocus@ == old(self).infocus@.push(false)
                &&& final(self).ids@ == old(self).ids@.push(id)
                &&& final(self).machine_edit_canvas_mode@ == old(self).machine_edit_canvas_mode@.push(false)
                &&& final(self).errors@.subrange(0, old(self).errors@.len() as int) == old(self).errors@
                &&& final(self).errors@.last()@ == Seq::<char>::empty()
                &&& final(self).localstorage@.subrange(0, old(self).localstorage@.len() as int) == old(self).localstorage@
                &&& !final(self).localstorage@.last().initialized
                &&& final(self).src_path == old(self).src_path
            },
    {
        match self.get_index(id.as_str()) {
            Ok(index) => {
                let changed = self.refresh_source(index, source);
                Registration::Refreshed { index: index, changed: changed }
            },
            Err(_) => {
                let index = self.ids.len();
                self.push(id, source);
                Registration::Added { index: index }
            },
        }
    }

    /// Whether panel `index` runs this frame: it has not run since its source was
    /// taken in, or it is interactive.
    pub fn needs_run(&self, index: usize) -> (r: bool)
        requires
            index < self.initialized@.len(),
            index < self.interactive@.len(),
        ensures
            r == (!self.initialized@[index as int] || self.interactive@[index as int]),
    {
        !self.initialized[index] || self.interactive[index]
    }

    /// Records that panel `index` ran with `outcome`: the panel counts as run, and
    /// an error becomes the panel's error and is handed back.
    pub fn record_run(&mut self, index: usize, outcome: Result<(), String>) -> (reported: Option<String>)
        requires
            index < old(self).initialized@.len(),
            index < old(self).errors@.len(),
        ensures
            final(self).initialized@ == old(self).initialized@.update(index as int, true),
            outcome is Ok ==> reported is None && final(self).errors == old(self).errors,
            outcome is Err ==> {
                &&& reported is Some
                &&& reported->Some_0@ == outcome->Err_0@
                &&& final(self).errors@.len() == old(self).errors@.len()
                &&& final(self).errors@[index as int]@ == outcome->Err_0@
                &&& forall|j: int| 0 <= j < old(self).errors@.len() && j != index ==> final(self).errors@[j] == old(self).errors@[j]
            },
            final(self).ids == old(self).ids,
            final(self).fns_source == old(self).fns_source,
            final(self).interactive == old(self).interactive,
            final(self).infocus == old(self).infocus,
            final(self).machine_edit_canvas_mode == old(self).machine_edit_canvas_mode,
            final(self).localstorage == old(self).localstorage,
            final(self).src_path == old(self).src_path,
    {
        self.initialized.set(index, true);
        match outcome {
            Ok(()) => None,
            Err(e) => {
                let copy = e.clone();
                self.errors.set(index, e);
                Some(copy)
            },
        }
    }

    /// Puts panel `index` in focus and takes the focus from every other panel.
    pub fn bring_into_focus(&mut self, index: usize)
        requires
            index < old(self).infocus@.len(),
        ensures
            final(self).infocus@.len() == old(self).infocus@.len(),
            forall|j: int| 0 <= j < final(self).infocus@.len() ==> final(self).infocus@[j] == (j == index),
            final(self).ids == old(self).ids,
            final(self).initialized == old(self).initialized,
            final(self).fns_source == old(self).fns_source,
            final(self).interactive == old(self).interactive,
            final(self).errors == old(self).errors,
            final(self).machine_edit_canvas_mode == old(self).machine_edit_canvas_mode,
            final(self).localstorage == old(self).localstorage,
            final(self).src_path == old(self).src_path,
    {
        self.infocus.set(index, true);
        let n = self.infocus.len();
        let mut j: usize = 0;
        while j < n
            invariant
                n == self.infocus@.len(),
                n == old(self).infocus@.len(),
                index < n,
                j <= n,
                self.infocus@[index as int],
                forall|k: int| 0 <= k < j && k != index ==> !self.infocus@[k],
                self.ids == old(self).ids,
                self.initialized == old(self).initialized,
                self.fns_source == old(self).fns_source,
                self.interactive == old(self).interactive,
                self.errors == old(self).errors,
                self.machine_edit_canvas_mode == old(self).machine_edit_canvas_mode,
                self.localstorage == old(self).localstorage,
                self.src_path == old(self).src_path,
            decreases n - j,
        {
            if j != index {
                self.infocus.set(j, false);
            }
            j = j + 1;
        }
    }
}

} // verus!
