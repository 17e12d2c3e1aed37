//! The bounded stack of open auxiliary files: per frame the file's name,
//! whether a handle is held, and the current line number.

use vstd::prelude::*;

verus! {

/// How deep auxiliary inputs may nest; reaching this depth is fatal.
pub const AUX_STACK_SIZE: usize = 20;

/// The mathematical image of the stack.
pub ghost struct AuxDataV {
    pub list: Seq<Seq<u8>>,
    pub file: Seq<bool>,
    pub ln: Seq<i32>,
    pub ptr: int,
}

/// The stack: fixed frames indexed by a cursor, frame 0 being the base
/// auxiliary file.
pub struct AuxData {
    pub aux_list: Vec<Vec<u8>>,
    pub aux_file: Vec<bool>,
    pub aux_ln_stack: Vec<i32>,
    pub aux_ptr: usize,
}

impl View for AuxData {
    type V = AuxDataV;

    open spec fn view(&self) -> AuxDataV {
        AuxDataV {
            list: self.aux_list.deep_view(),
            file: self.aux_file@,
            ln: self.aux_ln_stack@,
            ptr: self.aux_ptr as int,
        }
    }
}

/// The view of a freshly reset stack.
pub open spec fn empty_aux() -> AuxDataV {
    AuxDataV {
        list: Seq::new((AUX_STACK_SIZE + 1) as nat, |i: int| Seq::<u8>::empty()),
        file: Seq::new((AUX_STACK_SIZE + 1) as nat, |i: int| false),
        ln: Seq::new((AUX_STACK_SIZE + 1) as nat, |i: int| 0i32),
        ptr: 0,
    }
}

impl AuxData {
    /// All frames are present and the cursor is in range.
    pub open spec fn wf(self) -> bool {
        &&& self@.list.len() == AUX_STACK_SIZE + 1
        &&& self@.file.len() == AUX_STACK_SIZE + 1
        &&& self@.ln.len() == AUX_STACK_SIZE + 1
        &&& 0 <= self@.ptr <= AUX_STACK_SIZE
    }

    /// A stack of empty frames with the cursor on the base frame.
    pub fn new() -> (r: AuxData)
        ensures
            r.wf(),
            r@ == empty_aux(),
    {
        broadcast use crate::bytes::lemma_vec_u8_deep_view;

        let mut list: Vec<Vec<u8>> = Vec::new();
        let mut file: Vec<bool> = Vec::new();
        let mut ln: Vec<i32> = Vec::new();
        let mut i: usize = 0;
        while i < AUX_STACK_SIZE + 1
            invariant
                i <= AUX_STACK_SIZE + 1,
                list.deep_view() =~= Seq::new(i as nat, |k: int| Seq::<u8>::empty()),
                file@ =~= Seq::new(i as nat, |k: int| false),
                ln@ =~= Seq::new(i as nat, |k: int| 0i32),
            decreases AUX_STACK_SIZE + 1 - i,
        {
            let ghost pl = list.deep_view();
            list.push(Vec::new());
            file.push(false);
            ln.push(0);
            proof {
                assert(list.deep_view() =~~= pl.push(Seq::<u8>::empty()));
                assert(list.deep_view() =~~= Seq::new((i + 1) as nat, |k: int| Seq::<u8>::empty()));
                assert(file@ =~= Seq::new((i + 1) as nat, |k: int| false));
                assert(ln@ =~= Seq::new((i + 1) as nat, |k: int| 0i32));
            }
            i += 1;
        }
        let r = AuxData { aux_list: list, aux_file: file, aux_ln_stack: ln, aux_ptr: 0 };
        proof {
            assert(r@.list =~~= empty_aux().list);
            assert(r@.file =~= empty_aux().file);
            assert(r@.ln =~= empty_aux().ln);
        }
        r
    }

    /// The cursor.
    pub fn ptr(&self) -> (r: usize)
        ensures
            r == self@.ptr,
    {
        self.aux_ptr
    }

    /// Move the cursor.
    pub fn set_ptr(&mut self, ptr: usize)
        requires
            old(self).wf(),
            ptr <= AUX_STACK_SIZE,
        ensures
            final(self).wf(),
            final(self)@ == (AuxDataV { ptr: ptr as int, ..old(self)@ }),
    {
        self.aux_ptr = ptr;
    }

    /// The name in the current frame.
    pub fn at_ptr(&self) -> (r: &Vec<u8>)
        requires
            self.wf(),
        ensures
            r@ == self@.list[self@.ptr],
    {
        broadcast use crate::bytes::lemma_vec_u8_deep_view;

        &self.aux_list[self.aux_ptr]
    }

    /// Store a name in the current frame.
    pub fn set_at_ptr(&mut self, num: Vec<u8>)
        requires
            old(self).wf(),
        ensures
            final(self).wf(),
            final(self)@ == (AuxDataV {
                list: old(self)@.list.update(old(self)@.ptr, num@),
                ..old(self)@
            }),
    {
        broadcast use crate::bytes::lemma_vec_u8_deep_view;

        let ghost pre = self@.list;
        self.aux_list.set(self.aux_ptr, num);
        proof {
            assert(self@.list =~~= pre.update(old(self)@.ptr, num@));
        }
    }

    /// Whether the current frame holds an open handle.
    pub fn file_at_ptr(&self) -> (r: bool)
        requires
            self.wf(),
        ensures
            r == self@.file[self@.ptr],
    {
        self.aux_file[self.aux_ptr]
    }

    /// Record or clear the current frame's handle.
    pub fn set_file_at_ptr(&mut self, file: bool)
        requires
            old(self).wf(),
        ensures
            final(self).wf(),
            final(self)@ == (AuxDataV {
                file: old(self)@.file.update(old(self)@.ptr, file),
                ..old(self)@
            }),
    {
        self.aux_file.set(self.aux_ptr, file);
    }

    /// The current frame's line number.
    pub fn ln_at_ptr(&self) -> (r: i32)
        requires
            self.wf(),
        ensures
            r == self@.ln[self@.ptr],
    {
        self.aux_ln_stack[self.aux_ptr]
    }

    /// Set the current frame's line number.
    pub fn set_ln_at_ptr(&mut self, ln: i32)
        requires
            old(self).wf(),
        ensures
            final(self).wf(),
            final(self)@ == (AuxDataV { ln: old(self)@.ln.update(old(self)@.ptr, ln), ..old(self)@ }),
    {
        self.aux_ln_stack.set(self.aux_ptr, ln);
    }
}

/// Replace the stack with a freshly reset one.
pub fn reset(aux: &mut AuxData)
    ensures
        final(aux).wf(),
        final(aux)@ == empty_aux(),
{
    *aux = AuxData::new();
}

/// Whether the current frame holds an open handle.
pub fn cur_aux_file(aux: &AuxData) -> (r: bool)
    requires
        aux.wf(),
    ensures
        r == aux@.file[aux@.ptr],
{
    aux.file_at_ptr()
}

/// The current frame's line number.
pub fn cur_aux_ln(aux: &AuxData) -> (r: i32)
    requires
        aux.wf(),
    ensures
        r == aux@.ln[aux@.ptr],
{
    aux.ln_at_ptr()
}

/// Set the current frame's line number.
pub fn set_cur_aux_ln(aux: &mut AuxData, ln: i32)
    requires
        old(aux).wf(),
    ensures
        final(aux).wf(),
        final(aux)@ == (AuxDataV { ln: old(aux)@.ln.update(old(aux)@.ptr, ln), ..old(aux)@ }),
{
    aux.set_ln_at_ptr(ln)
}

/// Close the current frame's handle; pop to the caller's frame when one is
/// left, else report the stack exhausted.
pub fn pop_the_aux_stack(aux: &mut AuxData) -> (r: bool)
    requires
        old(aux).wf(),
    ensures
        final(aux).wf(),
        final(aux)@.list == old(aux)@.list,
        final(aux)@.ln == old(aux)@.ln,
        final(aux)@.file == old(aux)@.file.update(old(aux)@.ptr, false),
        old(aux)@.ptr == 0 ==> r == true && final(aux)@.ptr == 0,
        old(aux)@.ptr > 0 ==> r == false && final(aux)@.ptr == old(aux)@.ptr - 1,
{
    aux.set_file_at_ptr(false);
    if aux.ptr() == 0 {
        true
    } else {
        let p = aux.ptr();
        aux.set_ptr(p - 1);
        false
    }
}

} // verus!
