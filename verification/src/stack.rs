//! The call stack: one frame of variables per running function.
use vstd::prelude::*;
use vstd::string::StringExecFns;

use crate::issues::{ScopeManagerIssue, StackOverflowIssue};
use crate::scope_manager::{
    bad_assign_text, not_declared_error, not_declared_text, Binding, ScopeManager,
};
use crate::value::{spec_value_type, Value};

verus! {

/// The most frames the stack holds; a call beyond it overflows.
pub const MAX_FRAMES: usize = 500;

pub struct StackFrame {
    pub scope_manager: ScopeManager,
}

impl StackFrame {
    pub fn new() -> (f: StackFrame)
        ensures
            f.scope_manager.wf(),
            f.scope_manager.scope_count() == 1,
            f.scope_manager.cells().len() == 0,
            forall|name: Seq<char>| f.scope_manager.binding_of(name) is None,
            forall|b: Binding| !f.scope_manager.has_binding(b),
    {
        StackFrame { scope_manager: ScopeManager::new() }
    }
}

/// The frames of the running calls, the innermost last. A variable passed
/// by reference is bound, in the callee's frame, to the caller's cell.
pub struct Stack {
    frames: Vec<StackFrame>,
}

/// Every reference of frame `g` names an existing cell of a frame below it.
pub open spec fn references_below(frames: Seq<ScopeManager>, g: int) -> bool {
    forall|f: usize, i: usize| #[trigger] frames[g].has_binding(Binding::Outer(f, i)) ==> f < g && i < frames[f as int].cells().len()
}

/// The value a binding of frame `g` denotes.
pub open spec fn resolve(frames: Seq<ScopeManager>, g: int, b: Binding) -> Value {
    match b {
        Binding::Local(i) => frames[g].cells()[i as int],
        Binding::Outer(f, i) => frames[f as int].cells()[i as int],
    }
}

/// The cell, as (frame, index), a binding of frame `g` denotes.
pub open spec fn target(g: int, b: Binding) -> (int, int) {
    match b {
        Binding::Local(i) => (g, i as int),
        Binding::Outer(f, i) => (f as int, i as int),
    }
}

/// The same frames, each with the same open scopes and bindings (values may
/// differ).
pub open spec fn same_scopes(a: Stack, b: Stack) -> bool {
    &&& a.frame_count() == b.frame_count()
    &&& forall|g: int| 0 <= g < a.frame_count() ==> #[trigger] b.frames()[g].scope_list() == a.frames()[g].scope_list()
}

/// As `same_scopes`, except in the innermost scope of the innermost frame,
/// which may have gained bindings.
pub open spec fn same_outer_scopes(a: Stack, b: Stack) -> bool {
    &&& a.frame_count() == b.frame_count()
    &&& a.frame_count() >= 1
    &&& forall|g: int| 0 <= g < a.frame_count() - 1 ==> #[trigger] b.frames()[g].scope_list() == a.frames()[g].scope_list()
    &&& b.top().scope_list().len() == a.top().scope_list().len()
    &&& b.top().scope_list().drop_last() == a.top().scope_list().drop_last()
}

impl Stack {
    /// The frames' variables.
    pub closed spec fn frames(&self) -> Seq<ScopeManager> {
        self.frames@.map_values(|f: StackFrame| f.scope_manager)
    }

    pub open spec fn frame_count(&self) -> nat {
        self.frames().len()
    }

    pub open spec fn top(&self) -> ScopeManager {
        self.frames().last()
    }

    pub open spec fn wf(&self) -> bool {
        &&& self.frames().len() >= 1
        &&& self.frames().len() <= MAX_FRAMES
        &&& forall|g: int| 0 <= g < self.frames().len() ==> (#[trigger] self.frames()[g]).wf()
        &&& forall|g: int| 0 <= g < self.frames().len() ==> references_below(self.frames(), g)
    }

    /// The binding `name` has in the innermost call.
    pub open spec fn binding_of(&self, name: Seq<char>) -> Option<Binding> {
        self.top().binding_of(name)
    }

    /// The cell `name` denotes in the innermost call.
    pub open spec fn reference_of(&self, name: Seq<char>) -> Option<(int, int)> {
        match self.binding_of(name) {
            Some(b) => Some(target(self.frame_count() - 1, b)),
            None => None,
        }
    }

    /// The value of `name` in the innermost call.
    pub open spec fn value_of(&self, name: Seq<char>) -> Option<Value> {
        match self.binding_of(name) {
            Some(b) => Some(resolve(self.frames(), self.frame_count() - 1, b)),
            None => None,
        }
    }

    /// The value in cell `i` of frame `f`.
    pub open spec fn cell(&self, f: int, i: int) -> Value {
        self.frames()[f].cells()[i]
    }

    proof fn lemma_frames_push(frames: Seq<StackFrame>, fr: StackFrame)
        ensures
            frames.push(fr).map_values(|f: StackFrame| f.scope_manager) == frames.map_values(
                |f: StackFrame| f.scope_manager,
            ).push(fr.scope_manager),
    {
        assert(frames.push(fr).map_values(|f: StackFrame| f.scope_manager) =~= frames.map_values(
            |f: StackFrame| f.scope_manager,
        ).push(fr.scope_manager));
    }

    proof fn lemma_frames_update(frames: Seq<StackFrame>, g: int, fr: StackFrame)
        requires
            0 <= g < frames.len(),
        ensures
            frames.update(g, fr).map_values(|f: StackFrame| f.scope_manager) == frames.map_values(
                |f: StackFrame| f.scope_manager,
            ).update(g, fr.scope_manager),
    {
        assert(frames.update(g, fr).map_values(|f: StackFrame| f.scope_manager) =~= frames.map_values(
            |f: StackFrame| f.scope_manager,
        ).update(g, fr.scope_manager));
    }

    proof fn lemma_frames_drop_last(frames: Seq<StackFrame>)
        requires
            frames.len() > 0,
        ensures
            frames.drop_last().map_values(|f: StackFrame| f.scope_manager) == frames.map_values(
                |f: StackFrame| f.scope_manager,
            ).drop_last(),
    {
        assert(frames.drop_last().map_values(|f: StackFrame| f.scope_manager) =~= frames.map_values(
            |f: StackFrame| f.scope_manager,
        ).drop_last());
    }

    /// A stack with the global frame only, where nothing is declared.
    pub fn new() -> (s: Stack)
        ensures
            s.wf(),
            s.frame_count() == 1,
            s.top().scope_count() == 1,
            forall|name: Seq<char>| s.binding_of(name) is None,
    {
        let mut frames = Vec::new();
        let fr = StackFrame::new();
        frames.push(fr);
        proof {
            Self::lemma_frames_push(Seq::empty(), fr);
            assert(Seq::<StackFrame>::empty().push(fr) =~= frames@);
        }
        Stack { frames }
    }

    /// Opens the frame of a call: it sees none of the caller's variables.
    /// The frame beyond the five hundredth is refused.
    pub fn push_stack_frame(&mut self) -> (r: Result<(), StackOverflowIssue>)
        requires
            old(self).wf(),
        ensures
            final(self).wf(),
            old(self).frame_count() == MAX_FRAMES <==> r is Err,
            r matches Err(e) ==> e.message@ == "Stack overflow."@,
            r is Err ==> final(self).frames() == old(self).frames(),
            r is Ok ==> {
                &&& final(self).frames().drop_last() == old(self).frames()
                &&& final(self).top().scope_count() == 1
                &&& final(self).top().cells().len() == 0
                &&& forall|name: Seq<char>| final(self).binding_of(name) is None
            },
    {
        if self.frames.len() == MAX_FRAMES {
            return Err(StackOverflowIssue { message: String::from_str("Stack overflow.") });
        }
        let fr = StackFrame::new();
        let ghost old_frames = self.frames@;
        self.frames.push(fr);
        proof {
            Self::lemma_frames_push(old_frames, fr);
            let frames = self.frames();
            assert(frames.drop_last() =~= old(self).frames());
            assert forall|g: int| 0 <= g < frames.len() implies references_below(frames, g) by {
                if g < frames.len() - 1 {
                    assert(frames[g] == old(self).frames()[g]);
                    assert forall|f: usize, i: usize| #[trigger] frames[g].has_binding(Binding::Outer(f, i)) implies f < g
                        && i < frames[f as int].cells().len() by {
                        assert(references_below(old(self).frames(), g));
                        assert(old(self).frames()[g].has_binding(Binding::Outer(f, i)));
                    }
                }
            }
        }
        Ok(())
    }

    /// Closes the innermost call's frame; the global frame stays.
    pub fn pop_stack_frame(&mut self)
        requires
            old(self).wf(),
        ensures
            final(self).wf(),
            old(self).frame_count() > 1 ==> final(self).frames() == old(self).frames().drop_last(),
            old(self).frame_count() == 1 ==> final(self).frames() == old(self).frames(),
    {
        if self.frames.len() > 1 {
            let ghost old_frames = self.frames@;
            self.frames.pop();
            proof {
                Self::lemma_frames_drop_last(old_frames);
                assert(self.frames@ =~= old_frames.drop_last());
                let frames = self.frames();
                assert forall|g: int| 0 <= g < frames.len() implies references_below(frames, g) by {
                    assert(frames[g] == old(self).frames()[g]);
                    assert forall|f: usize, i: usize| #[trigger] frames[g].has_binding(Binding::Outer(f, i)) implies f < g
                        && i < frames[f as int].cells().len() by {
                        assert(references_below(old(self).frames(), g));
                        assert(old(self).frames()[g].has_binding(Binding::Outer(f, i)));
                    }
                }
            }
        }
    }

    /// Replacing the innermost frame by one whose bindings are among the old
    /// ones, or are new local bindings or references below, keeps the stack
    /// well formed.
    proof fn lemma_replace_top(old_s: Seq<ScopeManager>, new_s: Seq<ScopeManager>)
        requires
            old_s.len() >= 1,
            new_s.len() == old_s.len(),
            forall|g: int| 0 <= g < old_s.len() - 1 ==> new_s[g] == old_s[g],
            forall|g: int| 0 <= g < old_s.len() ==> (#[trigger] old_s[g]).wf(),
            forall|g: int| 0 <= g < old_s.len() ==> references_below(old_s, g),
            new_s.last().wf(),
            forall|f: usize, i: usize| #[trigger] new_s.last().has_binding(Binding::Outer(f, i)) ==> old_s.last().has_binding(
                Binding::Outer(f, i),
            ) || (f < old_s.len() - 1 && i < old_s[f as int].cells().len()),
        ensures
            forall|g: int| 0 <= g < new_s.len() ==> (#[trigger] new_s[g]).wf(),
            forall|g: int| 0 <= g < new_s.len() ==> references_below(new_s, g),
    {
        let top = old_s.len() - 1;
        assert forall|g: int| 0 <= g < new_s.len() implies references_below(new_s, g) by {
            assert(references_below(old_s, g));
            assert forall|f: usize, i: usize| #[trigger] new_s[g].has_binding(Binding::Outer(f, i)) implies f < g && i
                < new_s[f as int].cells().len() by {
                if g < top {
                    assert(old_s[g].has_binding(Binding::Outer(f, i)));
                } else if old_s.last().has_binding(Binding::Outer(f, i)) {
                    assert(old_s[top].has_binding(Binding::Outer(f, i)));
                }
            }
        }
    }

    /// Opens a scope in the innermost call.
    pub fn push_scope(&mut self)
        requires
            old(self).wf(),
        ensures
            final(self).wf(),
            final(self).frames().drop_last() == old(self).frames().drop_last(),
            final(self).frame_count() == old(self).frame_count(),
            final(self).top().scope_count() == old(self).top().scope_count() + 1,
            final(self).top().scope_list().drop_last() == old(self).top().scope_list(),
            final(self).top().cells() == old(self).top().cells(),
            forall|name: Seq<char>| #[trigger] final(self).binding_of(name) == old(self).binding_of(name),
            forall|name: Seq<char>| #[trigger] final(self).top().outer_binding_of(name) == old(self).binding_of(name),
    {
        let n = self.frames.len();
        let ghost old_frames = self.frames@;
        self.frames[n - 1].scope_manager.push_scope();
        proof {
            Self::lemma_frames_update(old_frames, n - 1, self.frames@[n - 1]);
            assert(self.frames@ =~= old_frames.update(n - 1, self.frames@[n - 1]));
            Self::lemma_replace_top(old(self).frames(), self.frames());
            assert(self.frames().drop_last() =~= old(self).frames().drop_last());
        }
    }

    /// Closes the innermost scope of the innermost call.
    pub fn pop_scope(&mut self)
        requires
            old(self).wf(),
        ensures
            final(self).wf(),
            final(self).frames().drop_last() == old(self).frames().drop_last(),
            final(self).frame_count() == old(self).frame_count(),
            old(self).top().scope_count() > 0 ==> final(self).top().scope_count() == old(self).top().scope_count() - 1,
            old(self).top().scope_count() > 0 ==> final(self).top().scope_list() == old(self).top().scope_list().drop_last(),
            final(self).top().cells() == old(self).top().cells().take(final(self).top().cells().len() as int),
            final(self).top().cells().len() <= old(self).top().cells().len(),
            forall|name: Seq<char>| #[trigger] final(self).binding_of(name) == old(self).top().outer_binding_of(name),
            forall|name: Seq<char>| #[trigger] final(self).binding_of(name) matches Some(Binding::Local(i)) ==> i < final(self).top().cells().len(),
    {
        let n = self.frames.len();
        let ghost old_frames = self.frames@;
        self.frames[n - 1].scope_manager.pop_scope();
        proof {
            Self::lemma_frames_update(old_frames, n - 1, self.frames@[n - 1]);
            assert(self.frames@ =~= old_frames.update(n - 1, self.frames@[n - 1]));
            Self::lemma_replace_top(old(self).frames(), self.frames());
            assert(self.frames().drop_last() =~= old(self).frames().drop_last());
        }
    }

    /// The cell, as (frame, index), that `name` denotes in the innermost
    /// call.
    pub fn get_reference(&self, name: &str) -> (r: Result<(usize, usize), ScopeManagerIssue>)
        requires
            self.wf(),
        ensures
            match self.reference_of(name@) {
                Some((f, i)) => r matches Ok((g, j)) && g == f && j == i && 0 <= f < self.frame_count() && i
                    < self.frames()[f].cells().len(),
                None => r matches Err(e) && e.message@ == not_declared_text(name@),
            },
    {
        let n = self.frames.len();
        let ghost frames = self.frames();
        assert(self.frames@[n - 1].scope_manager == frames[n - 1]);
        match self.frames[n - 1].scope_manager.get_variable(name) {
            Ok(b) => {
                proof {
                    frames[n - 1].lemma_binding_valid(name@);
                }
                match b {
                    Binding::Local(i) => Ok((n - 1, i)),
                    Binding::Outer(f, i) => {
                        proof {
                            assert(references_below(frames, n - 1));
                        }
                        Ok((f, i))
                    },
                }
            },
            Err(e) => Err(e),
        }
    }

    /// The value of `name` in the innermost call.
    pub fn get_variable(&self, name: &str) -> (r: Result<Value, ScopeManagerIssue>)
        requires
            self.wf(),
        ensures
            match self.value_of(name@) {
                Some(v) => r == Ok::<Value, ScopeManagerIssue>(v),
                None => r matches Err(e) && e.message@ == not_declared_text(name@),
            },
    {
        let ghost frames = self.frames();
        match self.get_reference(name) {
            Ok((f, i)) => {
                assert(self.frames@[f as int].scope_manager == frames[f as int]);
                Ok(self.frames[f].scope_manager.read_cell(i))
            },
            Err(e) => Err(e),
        }
    }

    /// The value in cell `cell` of frame `frame`, if there is such a cell.
    pub fn get_cell(&self, frame: usize, cell: usize) -> (r: Option<Value>)
        requires
            self.wf(),
        ensures
            frame < self.frame_count() && cell < self.frames()[frame as int].cells().len() <==> r is Some,
            r matches Some(v) ==> v == self.cell(frame as int, cell as int),
    {
        if frame < self.frames.len() {
            assert(self.frames@[frame as int].scope_manager == self.frames()[frame as int]);
            if cell < self.frames[frame].scope_manager.cell_count() {
                return Some(self.frames[frame].scope_manager.read_cell(cell));
            }
        }
        None
    }

    /// Declares `name` in the innermost scope of the innermost call, in a
    /// new cell holding `value`.
    pub fn declare_variable(&mut self, name: &str, value: Value) -> (r: Result<(), ScopeManagerIssue>)
        requires
            old(self).wf(),
        ensures
            final(self).wf(),
            final(self).frames().drop_last() == old(self).frames().drop_last(),
            final(self).frame_count() == old(self).frame_count(),
            final(self).top().scope_count() == old(self).top().scope_count(),
            same_outer_scopes(*old(self), *final(self)),
            old(self).binding_of(name@) is Some ==> (r matches Err(e) && e.message@ == crate::scope_manager::redeclare_text(name@)),
            old(self).binding_of(name@) is None && old(self).top().scope_count() > 0 <==> r is Ok,
            r is Err ==> final(self).frames() == old(self).frames(),
            r is Ok ==> {
                &&& final(self).top().cells() == old(self).top().cells().push(value)
                &&& final(self).binding_of(name@) == Some(Binding::Local(old(self).top().cells().len() as usize))
                &&& final(self).value_of(name@) == Some(value)
                &&& forall|other: Seq<char>| other != name@ ==> #[trigger] final(self).binding_of(other) == old(self).binding_of(other)
                &&& forall|other: Seq<char>| #[trigger] final(self).top().outer_binding_of(other) == old(self).top().outer_binding_of(other)
            },
    {
        let n = self.frames.len();
        let ghost old_frames = self.frames@;
        proof {
            assert(old(self).frames()[n - 1].wf());
            old(self).frames()[n - 1].lemma_cells_bounded();
        }
        let r = self.frames[n - 1].scope_manager.declare_variable(name, value);
        proof {
            Self::lemma_frames_update(old_frames, n - 1, self.frames@[n - 1]);
            assert(self.frames@ =~= old_frames.update(n - 1, self.frames@[n - 1]));
            Self::lemma_replace_top(old(self).frames(), self.frames());
            assert(self.frames().drop_last() =~= old(self).frames().drop_last());
            if r is Err {
                assert(self.frames() =~= old(self).frames());
            } else {
                assert(self.top() == self.frames()[n - 1]);
                assert(self.top().cells()[old(self).top().cells().len() as int] == value);
            }
        }
        r
    }

    /// Declares `name` in the innermost scope of the innermost call as
    /// another name for cell `cell` of the caller's frame `frame`; a cell
    /// that is not there is refused as undeclared.
    pub fn declare_reference(&mut self, name: &str, frame: usize, cell: usize) -> (r: Result<(), ScopeManagerIssue>)
        requires
            old(self).wf(),
        ensures
            final(self).wf(),
            final(self).frames().drop_last() == old(self).frames().drop_last(),
            final(self).frame_count() == old(self).frame_count(),
            final(self).top().cells() == old(self).top().cells(),
            same_outer_scopes(*old(self), *final(self)),
            r is Err ==> final(self).frames() == old(self).frames(),
            frame < old(self).frame_count() - 1 && cell < old(self).frames()[frame as int].cells().len()
                && old(self).binding_of(name@) is None && old(self).top().scope_count() > 0 <==> r is Ok,
            r is Ok ==> {
                &&& final(self).binding_of(name@) == Some(Binding::Outer(frame, cell))
                &&& final(self).value_of(name@) == Some(old(self).cell(frame as int, cell as int))
                &&& forall|other: Seq<char>| other != name@ ==> #[trigger] final(self).binding_of(other) == old(self).binding_of(other)
            },
    {
        let n = self.frames.len();
        if !(frame < n - 1 && cell < self.frames[frame].scope_manager.cell_count()) {
            return Err(not_declared_error(name));
        }
        let ghost old_frames = self.frames@;
        let r = self.frames[n - 1].scope_manager.declare_reference(name, frame, cell);
        proof {
            Self::lemma_frames_update(old_frames, n - 1, self.frames@[n - 1]);
            assert(self.frames@ =~= old_frames.update(n - 1, self.frames@[n - 1]));
            Self::lemma_replace_top(old(self).frames(), self.frames());
            assert(self.frames().drop_last() =~= old(self).frames().drop_last());
            if r is Err {
                assert(self.frames() =~= old(self).frames());
            }
        }
        r
    }

    /// Assigns `value` to the variable `name` of the innermost call, in the
    /// cell it denotes, which may be a caller's. The variable must exist and
    /// keep its type.
    pub fn assign_variable(&mut self, name: &str, value: Value) -> (r: Result<(), ScopeManagerIssue>)
        requires
            old(self).wf(),
        ensures
            final(self).wf(),
            final(self).frame_count() == old(self).frame_count(),
            same_scopes(*old(self), *final(self)),
            r is Err ==> final(self).frames() == old(self).frames(),
            match old(self).reference_of(name@) {
                None => r matches Err(e) && e.message@ == not_declared_text(name@),
                Some((f, i)) => {
                    &&& (spec_value_type(value) == spec_value_type(old(self).cell(f, i)) <==> r is Ok)
                    &&& r matches Err(e) ==> e.message@ == bad_assign_text(name@, value, old(self).cell(f, i))
                    &&& r is Ok ==> final(self).frames() == old(self).frames().update(
                        f,
                        final(self).frames()[f],
                    )
                    &&& r is Ok ==> final(self).frames()[f].cells() == old(self).frames()[f].cells().update(i, value)
                },
            },
            r is Ok ==> final(self).value_of(name@) == Some(value),
    {
        match self.get_reference(name) {
            Ok((f, i)) => {
                let ghost old_frames = self.frames@;
                let r = self.frames[f].scope_manager.write_cell(name, i, value);
                proof {
                    Self::lemma_frames_update(old_frames, f as int, self.frames@[f as int]);
                    assert(self.frames@ =~= old_frames.update(f as int, self.frames@[f as int]));
                    let frames = self.frames();
                    let old_s = old(self).frames();
                    assert(frames =~= old_s.update(f as int, frames[f as int]));
                    assert forall|g: int| 0 <= g < frames.len() implies references_below(frames, g) by {
                        assert(references_below(old_s, g));
                        assert forall|h: usize, j: usize| #[trigger] frames[g].has_binding(Binding::Outer(h, j)) implies h
                            < g && j < frames[h as int].cells().len() by {
                            assert(old_s[g].has_binding(Binding::Outer(h, j)));
                        }
                    }
                    if r is Err {
                        assert(frames =~= old_s);
                    }
                    let top = old_s.len() - 1;
                    assert(frames[top].scope_list() == old_s[top].scope_list());
                    assert(frames[top].binding_of(name@) == old_s[top].binding_of(name@));
                }
                r
            },
            Err(e) => Err(e),
        }
    }

    /// A variable is visible only in the block that declares it: after a
    /// scope is opened (`s0` to `s1`), variables are declared in it (`s1` to
    /// `s2`, which leaves the enclosing scopes as they were) and it is closed
    /// again (`s2` to `s3`), the innermost call sees exactly the variables it
    /// saw before.
    pub proof fn law_block_scoping(s0: Stack, s1: Stack, s2: Stack, s3: Stack)
        requires
            forall|n: Seq<char>| #[trigger] s1.top().outer_binding_of(n) == s0.binding_of(n),
            forall|n: Seq<char>| #[trigger] s2.top().outer_binding_of(n) == s1.top().outer_binding_of(n),
            forall|n: Seq<char>| #[trigger] s3.binding_of(n) == s2.top().outer_binding_of(n),
        ensures
            forall|n: Seq<char>| #[trigger] s3.binding_of(n) == s0.binding_of(n),
    {
        assert forall|n: Seq<char>| #[trigger] s3.binding_of(n) == s0.binding_of(n) by {
            assert(s3.binding_of(n) == s2.top().outer_binding_of(n));
            assert(s2.top().outer_binding_of(n) == s1.top().outer_binding_of(n));
        }
    }

    /// A parameter passed by reference writes through to the caller: when
    /// the caller's `x` denotes cell (`f`, `i`), a frame is pushed (`s0` to
    /// `s1`), the parameter `p` is declared as a reference to that cell (`s1`
    /// to `s2`), `v` is assigned to `p` (`s2` to `s3`) and the frame is popped
    /// (`s3` to `s4`), then the caller's `x` holds `v`.
    pub proof fn law_reference_writes_through(
        s0: Stack,
        s1: Stack,
        s2: Stack,
        s3: Stack,
        s4: Stack,
        x: Seq<char>,
        p: Seq<char>,
        v: Value,
    )
        requires
            s0.wf(),
            s0.reference_of(x) is Some,
            s0.reference_of(x) matches Some((f, i)) && s2.binding_of(p) == Some(Binding::Outer(f as usize, i as usize)),
            s1.frames().drop_last() == s0.frames(),
            s1.frame_count() == s0.frame_count() + 1,
            s2.frames().drop_last() == s1.frames().drop_last(),
            s2.frame_count() == s1.frame_count(),
            s2.reference_of(p) matches Some((f, i)) && s3.frames() == s2.frames().update(f, s3.frames()[f])
                && s3.frames()[f].cells() == s2.frames()[f].cells().update(i, v),
            same_scopes(s2, s3),
            s4.frames() == s3.frames().drop_last(),
        ensures
            s4.value_of(x) == Some(v),
    {
        let top = s0.frame_count() - 1;
        let (f, i) = s0.reference_of(x)->0;
        assert(s0.frames()[top].wf());
        s0.frames()[top].lemma_binding_valid(x);
        assert(references_below(s0.frames(), top));
        assert(0 <= f <= top);
        assert(s2.frames()[f] == s0.frames()[f]);
        assert(s4.frames()[top] == s3.frames()[top]);
        assert(s3.frames()[top].binding_of(x) == s2.frames()[top].binding_of(x));
        assert(s2.frames()[top] == s0.frames()[top]);
        assert(s4.frames()[f] == s3.frames()[f]);
    }

    /// Assignment never changes the type of a variable: after `v` is
    /// assigned to `name` (`s0` to `s1`), every variable of the innermost call
    /// holds a value of the type it held before.
    pub proof fn law_assignment_keeps_types(s0: Stack, s1: Stack, name: Seq<char>, v: Value)
        requires
            s0.wf(),
            same_scopes(s0, s1),
            s0.reference_of(name) matches Some((f, i)) && spec_value_type(v) == spec_value_type(s0.cell(f, i))
                && s1.frames() == s0.frames().update(f, s1.frames()[f]) && s1.frames()[f].cells() == s0.frames()[f].cells().update(
                i,
                v,
            ),
        ensures
            forall|n: Seq<char>| #[trigger] s0.value_of(n) is Some ==> s1.value_of(n) is Some
                && spec_value_type(s1.value_of(n)->0) == spec_value_type(s0.value_of(n)->0),
    {
        let top = s0.frame_count() - 1;
        assert(s1.frames()[top].binding_of(name) == s0.frames()[top].binding_of(name));
        let (f, i) = s0.reference_of(name)->0;
        assert(s0.frames()[top].wf());
        assert(references_below(s0.frames(), top));
        s0.frames()[top].lemma_binding_valid(name);
        assert forall|n: Seq<char>| #[trigger] s0.value_of(n) is Some implies s1.value_of(n) is Some
            && spec_value_type(s1.value_of(n)->0) == spec_value_type(s0.value_of(n)->0) by {
            assert(s1.frames()[top].binding_of(n) == s0.frames()[top].binding_of(n));
            let b = s0.binding_of(n)->0;
            let (g, j) = target(top, b);
            s0.frames()[top].lemma_binding_valid(n);
            if g == f {
                if j == i {
                    assert(s1.frames()[f].cells()[i] == v);
                } else {
                    assert(s1.frames()[f].cells()[j] == s0.frames()[f].cells()[j]);
                }
            } else {
                assert(s1.frames()[g] == s0.frames()[g]);
            }
        }
    }

    /// Opening a scope (`s0` to `s1`), running statements in it (`s1` to
    /// `s2`) and closing it (`s2` to `s3`) leaves the scopes as they were.
    pub proof fn lemma_scope_closed(s0: Stack, s1: Stack, s2: Stack, s3: Stack)
        requires
            s0.frame_count() >= 1,
            s1.frame_count() == s0.frame_count(),
            s1.frames().drop_last() == s0.frames().drop_last(),
            s1.top().scope_list().drop_last() == s0.top().scope_list(),
            s1.top().scope_list().len() == s0.top().scope_list().len() + 1,
            same_outer_scopes(s1, s2),
            s3.frame_count() == s2.frame_count(),
            s3.frames().drop_last() == s2.frames().drop_last(),
            s3.top().scope_list() == s2.top().scope_list().drop_last(),
        ensures
            same_scopes(s0, s3),
    {
        let n = s0.frame_count();
        assert forall|g: int| 0 <= g < n implies #[trigger] s3.frames()[g].scope_list() == s0.frames()[g].scope_list() by {
            if g < n - 1 {
                assert(s3.frames().drop_last()[g] == s3.frames()[g]);
                assert(s2.frames().drop_last()[g] == s2.frames()[g]);
                assert(s1.frames().drop_last()[g] == s1.frames()[g]);
                assert(s0.frames().drop_last()[g] == s0.frames()[g]);
            }
        }
    }

    /// Opening a frame (`s0` to `s1`), running a call in it (`s1` to `s2`)
    /// and closing it (`s2` to `s3`) leaves the scopes as they were.
    pub proof fn lemma_frame_closed(s0: Stack, s1: Stack, s2: Stack, s3: Stack)
        requires
            s1.frames().drop_last() == s0.frames(),
            s1.frame_count() == s0.frame_count() + 1,
            same_outer_scopes(s1, s2),
            s3.frames() == s2.frames().drop_last(),
        ensures
            same_scopes(s0, s3),
    {
        let n = s0.frame_count();
        assert forall|g: int| 0 <= g < n implies #[trigger] s3.frames()[g].scope_list() == s0.frames()[g].scope_list() by {
            assert(s1.frames().drop_last()[g] == s1.frames()[g]);
            assert(s2.frames().drop_last()[g] == s2.frames()[g]);
        }
    }

    /// The relations compose.
    /// Stacks whose frames hold the same cells, and whose innermost calls
    /// bind each name alike, give every name the same value.
    pub proof fn lemma_same_values(a: Stack, b: Stack)
        requires
            a.wf(),
            a.frame_count() == b.frame_count(),
            a.frames().drop_last() == b.frames().drop_last(),
            a.top().cells() == b.top().cells(),
            forall|n: Seq<char>| #[trigger] a.binding_of(n) == b.binding_of(n),
        ensures
            forall|n: Seq<char>| #[trigger] a.value_of(n) == b.value_of(n),
    {
        assert forall|n: Seq<char>| #[trigger] a.value_of(n) == b.value_of(n) by {
            if a.binding_of(n) is Some {
                let g = a.frame_count() - 1;
                assert(a.frames()[g].wf());
                a.top().lemma_binding_valid(n);
                if let Binding::Outer(f, i) = a.binding_of(n)->0 {
                    assert(references_below(a.frames(), g));
                    assert(a.frames()[g].has_binding(Binding::Outer(f, i)));
                    assert(a.frames().drop_last()[f as int] == a.frames()[f as int]);
                    assert(b.frames().drop_last()[f as int] == b.frames()[f as int]);
                }
            }
        }
    }

    pub proof fn lemma_scopes_compose(a: Stack, b: Stack, c: Stack)
        ensures
            same_scopes(a, b) && same_scopes(b, c) ==> same_scopes(a, c),
            same_outer_scopes(a, b) && same_outer_scopes(b, c) ==> same_outer_scopes(a, c),
            same_scopes(a, b) && same_outer_scopes(b, c) ==> same_outer_scopes(a, c),
            same_outer_scopes(a, b) && same_scopes(b, c) ==> same_outer_scopes(a, c),
            same_scopes(a, b) && a.frame_count() >= 1 ==> same_outer_scopes(a, b),
            a.frame_count() >= 1 ==> same_scopes(a, a) && same_outer_scopes(a, a),
    {
        let n = a.frame_count();
        if n >= 1 {
            let t = n - 1;
            if same_scopes(a, b) {
                assert(b.frames()[t].scope_list() == a.frames()[t].scope_list());
            }
            if same_scopes(b, c) && b.frame_count() == n {
                assert(c.frames()[t].scope_list() == b.frames()[t].scope_list());
            }
        }
    }

    /// How many frames the stack holds.
    pub fn len(&self) -> (n: usize)
        ensures
            n == self.frame_count(),
    {
        proof {
            assert(self.frames().len() == self.frames@.len());
        }
        self.frames.len()
    }

    /// How many scopes the innermost call has open.
    pub fn scope_count(&self) -> (n: u32)
        requires
            self.wf(),
            self.top().scope_count() <= u32::MAX,
        ensures
            n == self.top().scope_count(),
    {
        let n = self.frames.len();
        assert(self.frames@[n - 1].scope_manager == self.frames()[n - 1]);
        self.frames[n - 1].scope_manager.len()
    }
}

} // verus!
