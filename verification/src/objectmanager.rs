//! The environment manager: a stack of scopes ("frames"), each an ordered
//! sequence of bindings. A binding is a `Cons` object whose first half is a
//! `Symbol` naming the variable and whose second half is its value.

use crate::lispobject::{lemma_views_of, views_of, LispObject, LispType, ObjModel, TypeModel};
use vstd::prelude::*;

verus! {

broadcast use vstd::std_specs::vec::group_vec_axioms, vstd::seq::group_seq_axioms, lemma_views_of;

/// True when `o` is a binding for the variable named `name`: a `Cons` whose
/// first half is a `Symbol` with that name.
pub open spec fn is_binding_for(o: ObjModel, name: Seq<char>) -> bool {
    match o.val {
        TypeModel::Cons(p) => match p.0.val {
            TypeModel::Symbol(s) => s == name,
            _ => false,
        },
        _ => false,
    }
}

/// The value half of a binding.
pub open spec fn binding_value(o: ObjModel) -> ObjModel {
    match o.val {
        TypeModel::Cons(p) => p.1,
        _ => o,
    }
}

/// The binding `o` with its value replaced by `v`; the variable half is kept.
pub open spec fn rebound(o: ObjModel, v: ObjModel) -> ObjModel {
    match o.val {
        TypeModel::Cons(p) => ObjModel {
            quoted: false,
            val: TypeModel::Cons(Box::new((p.0, v))),
        },
        _ => o,
    }
}

/// A fresh binding associating the key object `key` with the value `v`.
pub open spec fn new_binding(key: ObjModel, v: ObjModel) -> ObjModel {
    ObjModel { quoted: false, val: TypeModel::Cons(Box::new((key, v))) }
}

/// The value of the first binding for `name` in the frame, scanning from
/// position `i` towards the end (bindings are scanned in creation order).
pub open spec fn frame_lookup_from(frame: Seq<ObjModel>, name: Seq<char>, i: int) -> Option<
    ObjModel,
>
    decreases frame.len() - i,
{
    if i < 0 || i >= frame.len() {
        None
    } else if is_binding_for(frame[i], name) {
        Some(binding_value(frame[i]))
    } else {
        frame_lookup_from(frame, name, i + 1)
    }
}

/// The value bound to `name` in the frame, or `None`.
pub open spec fn frame_lookup(frame: Seq<ObjModel>, name: Seq<char>) -> Option<ObjModel> {
    frame_lookup_from(frame, name, 0)
}

/// The frame with the first binding for `name` at or after position `i`
/// replaced in place; the frame is unchanged when no binding matches.
pub open spec fn frame_set_from(frame: Seq<ObjModel>, name: Seq<char>, v: ObjModel, i: int) -> Seq<
    ObjModel,
>
    decreases frame.len() - i,
{
    if i < 0 || i >= frame.len() {
        frame
    } else if is_binding_for(frame[i], name) {
        frame.update(i, rebound(frame[i], v))
    } else {
        frame_set_from(frame, name, v, i + 1)
    }
}

/// The frame with the first binding for `name` replaced in place.
pub open spec fn frame_set(frame: Seq<ObjModel>, name: Seq<char>, v: ObjModel) -> Seq<ObjModel> {
    frame_set_from(frame, name, v, 0)
}

/// The value bound to `name`, scanning frames from position `j` down towards
/// the outermost frame; within a frame, the first binding in creation order.
pub open spec fn stack_lookup_from(
    frames: Seq<Seq<ObjModel>>,
    name: Seq<char>,
    j: int,
) -> Option<ObjModel>
    decreases j + 1,
{
    if j < 0 || j >= frames.len() {
        None
    } else {
        match frame_lookup(frames[j], name) {
            Some(v) => Some(v),
            None => stack_lookup_from(frames, name, j - 1),
        }
    }
}

/// The value bound to `name` in the innermost frame that binds it.
pub open spec fn stack_lookup(frames: Seq<Seq<ObjModel>>, name: Seq<char>) -> Option<ObjModel> {
    stack_lookup_from(frames, name, frames.len() - 1)
}

/// The frame stack after updating the innermost existing binding for `name`
/// at or below frame `j`, or `None` when no frame at or below `j` binds it.
pub open spec fn stack_set_from(
    frames: Seq<Seq<ObjModel>>,
    name: Seq<char>,
    v: ObjModel,
    j: int,
) -> Option<Seq<Seq<ObjModel>>>
    decreases j + 1,
{
    if j < 0 || j >= frames.len() {
        None
    } else if frame_lookup(frames[j], name) is Some {
        Some(frames.update(j, frame_set(frames[j], name, v)))
    } else {
        stack_set_from(frames, name, v, j - 1)
    }
}

/// The frame stack after an assignment of `v` to the symbol `key`: the
/// innermost existing binding is updated in place wherever it lives; when no
/// frame binds the name, a fresh binding is appended to the innermost frame.
/// `None` only when there is no frame at all.
pub open spec fn stack_set(frames: Seq<Seq<ObjModel>>, key: ObjModel, v: ObjModel) -> Option<
    Seq<Seq<ObjModel>>,
> {
    match key.val {
        TypeModel::Symbol(name) => match stack_set_from(frames, name, v, frames.len() - 1) {
            Some(updated) => Some(updated),
            None => if frames.len() > 0 {
                Some(
                    frames.update(
                        frames.len() - 1,
                        frames.last().push(new_binding(key, v)),
                    ),
                )
            } else {
                None
            },
        },
        _ => None,
    }
}

/// The models of the frames of a stack.
pub open spec fn frame_views(s: Seq<Frame>) -> Seq<Seq<ObjModel>>
    decreases s,
{
    if s.len() == 0 {
        Seq::empty()
    } else {
        frame_views(s.drop_last()).push(s.last()@)
    }
}

/// `frame_views` maps a sequence elementwise: same length, the model at each index.
pub broadcast proof fn lemma_frame_views(s: Seq<Frame>)
    ensures
        #![trigger frame_views(s)]
        frame_views(s).len() == s.len(),
        forall|i: int| 0 <= i < s.len() ==> frame_views(s)[i] == s[i]@,
    decreases s,
{
    if s.len() > 0 {
        lemma_frame_views(s.drop_last());
        assert forall|i: int| 0 <= i < s.len() implies frame_views(s)[i] == s[i]@ by {
            if i < s.len() - 1 {
                assert(s.drop_last()[i] == s[i]);
            }
        }
    }
}

/// One scope: an ordered sequence of bindings, owned objects.
#[derive(Debug)]
pub struct Frame {
    scoped_objects: Vec<LispObject>,
}

impl View for Frame {
    type V = Seq<ObjModel>;

    closed spec fn view(&self) -> Seq<ObjModel> {
        views_of(self.scoped_objects@)
    }
}

impl Default for Frame {
    /// A fresh frame holds no bindings.
    fn default() -> (r: Self)
        ensures
            r@ == Seq::<ObjModel>::empty(),
    {
        Frame { scoped_objects: Vec::new() }
    }
}

/// The owner of the frame stack, which no other component touches; all
/// scope bookkeeping goes through it.
#[derive(Debug)]
pub struct Manager {
    frames: Vec<Frame>,
}

impl View for Manager {
    type V = Seq<Seq<ObjModel>>;

    closed spec fn view(&self) -> Seq<Seq<ObjModel>> {
        frame_views(self.frames@)
    }
}

impl Default for Manager {
    /// A fresh manager holds a single empty scope: the global scope that
    /// wraps a whole top-level run.
    fn default() -> (r: Self)
        ensures
            r@ == seq![Seq::<ObjModel>::empty()],
    {
        let mut frames: Vec<Frame> = Vec::new();
        frames.push(Frame::default());
        proof {
            lemma_frame_views(frames@);
            assert(frame_views(frames@) =~= seq![Seq::<ObjModel>::empty()]);
        }
        Manager { frames }
    }
}

impl Frame {
    /// Appends an object to the frame, after any existing bindings.
    pub fn push(&mut self, obj: LispObject)
        ensures
            final(self)@ == old(self)@.push(obj@),
    {
        self.scoped_objects.push(obj);
        proof {
            assert(views_of(self.scoped_objects@) =~= views_of(
                old(self).scoped_objects@,
            ).push(obj@));
        }
    }

    /// The value of the first binding for the symbol `name`, scanning
    /// bindings in creation order; `None` when `name` is not a symbol or
    /// nothing matches.
    #[verifier::loop_isolation(false)]
    pub fn get_val(&self, name: LispObject) -> (r: Option<LispObject>)
        ensures
            match name@.val {
                TypeModel::Symbol(n) => match (r, frame_lookup(self@, n)) {
                    (Some(obj), Some(v)) => obj@ == v,
                    (None, None) => true,
                    _ => false,
                },
                _ => r is None,
            },
    {
        let var_name = match name.get_type() {
            LispType::Symbol(s) => s,
            _ => { return None },
        };

        let ghost n = var_name@;
        let mut i: usize = 0;
        while i < self.scoped_objects.len()
            invariant
                i <= self.scoped_objects@.len(),
                self@.len() == self.scoped_objects@.len(),
                frame_lookup(self@, n) == frame_lookup_from(self@, n, i as int),
            decreases self.scoped_objects@.len() - i,
        {
            if let LispType::Cons(pair) = self.scoped_objects[i].get_type() {
                if let LispType::Symbol(s) = pair.0.get_type() {
                    if s == var_name {
                        proof {
                            assert(is_binding_for(self@[i as int], n));
                        }
                        return Some(pair.1);
                    }
                }
            }
            proof {
                assert(!is_binding_for(self@[i as int], n));
            }
            i = i + 1;
        }
        None
    }

    /// Replaces the value of the first binding for the symbol `name` in
    /// place, keeping the binding's variable half. `Some` when a binding was
    /// found; `None`, with the frame unchanged, otherwise.
    #[verifier::loop_isolation(false)]
    pub fn set_val(&mut self, name: LispObject, new: LispObject) -> (r: Option<()>)
        ensures
            match name@.val {
                TypeModel::Symbol(n) => {
                    &&& (r is Some <==> frame_lookup(old(self)@, n) is Some)
                    &&& (r is Some ==> final(self)@ == frame_set(old(self)@, n, new@))
                    &&& (r is None ==> final(self)@ == old(self)@)
                },
                _ => r is None && final(self)@ == old(self)@,
            },
    {
        let var_name = match name.get_type() {
            LispType::Symbol(s) => s,
            _ => { return None },
        };

        let ghost n = var_name@;
        let mut i: usize = 0;
        while i < self.scoped_objects.len()
            invariant
                i <= self.scoped_objects@.len(),
                self@.len() == self.scoped_objects@.len(),
                *self == *old(self),
                frame_lookup(self@, n) == frame_lookup_from(self@, n, i as int),
                frame_set(self@, n, new@) == frame_set_from(self@, n, new@, i as int),
            decreases self.scoped_objects@.len() - i,
        {
            if let LispType::Cons(pair) = self.scoped_objects[i].get_type() {
                if let LispType::Symbol(s) = pair.0.get_type() {
                    if s == var_name {
                        proof {
                            assert(is_binding_for(self@[i as int], n));
                        }
                        let replacement = LispObject::cons(pair.0, new);
                        let slot = &mut self.scoped_objects[i];
                        *slot = replacement;
                        proof {
                            assert(views_of(self.scoped_objects@) =~= frame_set(
                                old(self)@,
                                n,
                                new@,
                            ));
                        }
                        return Some(());
                    }
                }
            }
            proof {
                assert(!is_binding_for(self@[i as int], n));
            }
            i = i + 1;
        }
        None
    }

    /// Appends a fresh binding of `name` to `new`, without searching for an
    /// existing one.
    pub fn set_val_force(&mut self, name: LispObject, new: LispObject) -> (r: Option<()>)
        ensures
            r is Some,
            final(self)@ == old(self)@.push(new_binding(name@, new@)),
    {
        let binding = LispObject::cons(name, new);
        self.push(binding);
        Some(())
    }
}

impl Manager {
    /// Pushes a fresh empty scope.
    pub fn new_frame(&mut self)
        ensures
            final(self)@ == old(self)@.push(Seq::<ObjModel>::empty()),
    {
        self.frames.push(Frame::default());
        proof {
            lemma_frame_views(self.frames@);
            lemma_frame_views(old(self).frames@);
            assert(frame_views(self.frames@) =~= frame_views(old(self).frames@).push(
                Seq::<ObjModel>::empty(),
            ));
        }
    }

    /// Discards the innermost scope and all its bindings; a no-op when the
    /// stack is already empty.
    pub fn pop_frame(&mut self)
        ensures
            old(self)@.len() == 0 ==> final(self)@ == old(self)@,
            old(self)@.len() > 0 ==> final(self)@ == old(self)@.drop_last(),
    {
        proof {
            lemma_frame_views(self.frames@);
        }
        if self.frames.len() > 0 {
            let idx = self.frames.len() - 1;
            self.frames.remove(idx);
            proof {
                lemma_frame_views(self.frames@);
                lemma_frame_views(old(self).frames@);
                assert(frame_views(self.frames@) =~= frame_views(old(self).frames@).drop_last());
            }
        }
    }

    /// The value bound to the symbol `name` in the innermost frame that binds
    /// it; `None` when `name` is not a symbol or no frame binds it. The
    /// stack itself is left unchanged.
    #[verifier::loop_isolation(false)]
    pub fn get_val(&mut self, name: LispObject) -> (r: Option<LispObject>)
        ensures
            final(self)@ == old(self)@,
            match name@.val {
                TypeModel::Symbol(n) => match (r, stack_lookup(old(self)@, n)) {
                    (Some(obj), Some(v)) => obj@ == v,
                    (None, None) => true,
                    _ => false,
                },
                _ => r is None,
            },
    {
        proof {
            lemma_frame_views(self.frames@);
        }
        let ghost n_opt = name@.val;
        let mut j: usize = self.frames.len();
        while j > 0
            invariant
                j <= self.frames@.len(),
                self@.len() == self.frames@.len(),
                *self == *old(self),
                match n_opt {
                    TypeModel::Symbol(n) => stack_lookup(self@, n) == stack_lookup_from(
                        self@,
                        n,
                        j - 1,
                    ),
                    _ => true,
                },
            decreases j,
        {
            j = j - 1;
            let found = self.frames[j].get_val(name.clone());
            if let Some(v) = found {
                return Some(v);
            }
        }
        None
    }

    /// Assigns `value` to the symbol `key`: updates the innermost existing
    /// binding in place wherever it lives, else creates a fresh binding in
    /// the innermost scope. `None` only when there is no scope at all.
    #[verifier::loop_isolation(false)]
    pub fn set_val(&mut self, key: LispObject, value: LispObject) -> (r: Option<()>)
        requires
            key@.val is Symbol,
        ensures
            match (r, stack_set(old(self)@, key@, value@)) {
                (Some(_), Some(updated)) => final(self)@ == updated,
                (None, None) => final(self)@ == old(self)@,
                _ => false,
            },
    {
        proof {
            lemma_frame_views(self.frames@);
        }
        let ghost n = name_of_key(key@);
        let mut j: usize = self.frames.len();
        while j > 0
            invariant
                j <= self.frames@.len(),
                self@.len() == self.frames@.len(),
                self@ == old(self)@,
                self.frames@.len() == old(self).frames@.len(),
                key@.val is Symbol,
                n == name_of_key(key@),
                stack_set_from(old(self)@, n, value@, old(self)@.len() - 1) == stack_set_from(
                    old(self)@,
                    n,
                    value@,
                    j - 1,
                ),
            decreases j,
        {
            j = j - 1;
            let ghost pre = self.frames@;
            let target = &mut self.frames[j];
            let found = target.set_val(key.clone(), value.clone());
            proof {
                lemma_frame_views(pre);
                lemma_frame_views(self.frames@);
                lemma_frame_views(old(self).frames@);
            }
            if found.is_some() {
                proof {
                    assert(frame_views(self.frames@) =~= frame_views(old(self).frames@).update(
                        j as int,
                        frame_set(frame_views(old(self).frames@)[j as int], n, value@),
                    ));
                }
                return Some(());
            }
            proof {
                assert(frame_views(self.frames@) =~= frame_views(old(self).frames@));
            }
        }
        if self.frames.len() > 0 {
            let idx = self.frames.len() - 1;
            let ghost pre = self.frames@;
            let target = &mut self.frames[idx];
            let res = target.set_val_force(key, value);
            proof {
                lemma_frame_views(pre);
                lemma_frame_views(self.frames@);
                lemma_frame_views(old(self).frames@);
                assert(frame_views(self.frames@) =~= frame_views(old(self).frames@).update(
                    idx as int,
                    frame_views(old(self).frames@)[idx as int].push(
                        new_binding(key@, value@),
                    ),
                ));
            }
            return res;
        }
        None
    }
}

/// The name of a symbol key.
pub open spec fn name_of_key(key: ObjModel) -> Seq<char> {
    match key.val {
        TypeModel::Symbol(n) => n,
        _ => Seq::empty(),
    }
}

/// Replacing a binding in place touches one position at most: positions
/// before the scan start are kept, and where a binding for `name` was found
/// the updated frame now yields `v`; where none was found the frame is
/// unchanged.
proof fn lemma_frame_set_from(frame: Seq<ObjModel>, name: Seq<char>, v: ObjModel, i: int)
    ensures
        frame_set_from(frame, name, v, i).len() == frame.len(),
        forall|k: int|
            0 <= k < frame.len() && k < i ==> frame_set_from(frame, name, v, i)[k] == frame[k],
        frame_lookup_from(frame, name, i) is None ==> frame_set_from(frame, name, v, i) == frame,
        frame_lookup_from(frame, name, i) is Some ==> frame_lookup_from(
            frame_set_from(frame, name, v, i),
            name,
            i,
        ) == Some(v),
    decreases frame.len() - i,
{
    if i < 0 || i >= frame.len() {
    } else if is_binding_for(frame[i], name) {
        let set = frame.update(i, rebound(frame[i], v));
        assert(is_binding_for(set[i], name) && binding_value(set[i]) == v);
    } else {
        lemma_frame_set_from(frame, name, v, i + 1);
    }
}

/// Appending an object to a frame leaves earlier bindings first in line: a
/// lookup still prefers the existing binding, and falls back to the appended
/// object when nothing matched before.
proof fn lemma_frame_lookup_push(frame: Seq<ObjModel>, name: Seq<char>, b: ObjModel, i: int)
    requires
        0 <= i <= frame.len(),
    ensures
        frame_lookup_from(frame.push(b), name, i) == match frame_lookup_from(frame, name, i) {
            Some(x) => Some(x),
            None => if is_binding_for(b, name) {
                Some(binding_value(b))
            } else {
                None
            },
        },
    decreases frame.len() - i,
{
    if i < frame.len() {
        assert(frame.push(b)[i] == frame[i]);
        lemma_frame_lookup_push(frame, name, b, i + 1);
    } else if i == frame.len() {
        assert(frame.push(b)[i] == b);
        assert(frame_lookup_from(frame, name, i) is None);
        assert(frame_lookup_from(frame.push(b), name, i + 1) is None);
    }
}

/// An in-place update by `stack_set_from` touches exactly one frame at or
/// below the scan start; a lookup from the scan start then yields the new
/// value, and frames above the scan start are untouched. Where the scan
/// found nothing, a lookup over the same frames finds nothing either.
proof fn lemma_stack_set_from(frames: Seq<Seq<ObjModel>>, name: Seq<char>, v: ObjModel, j: int)
    ensures
        match stack_set_from(frames, name, v, j) {
            Some(u) => {
                &&& u.len() == frames.len()
                &&& stack_lookup_from(u, name, j) == Some(v)
                &&& forall|k: int| j < k < frames.len() ==> u[k] == frames[k]
            },
            None => true,
        },
        stack_set_from(frames, name, v, j) is Some <==> stack_lookup_from(frames, name, j)
            is Some,
    decreases j + 1,
{
    if j < 0 || j >= frames.len() {
    } else if frame_lookup(frames[j], name) is Some {
        let u = frames.update(j, frame_set(frames[j], name, v));
        lemma_frame_set_from(frames[j], name, v, 0);
    } else {
        lemma_stack_set_from(frames, name, v, j - 1);
    }
}

/// Dropping the innermost frame commutes with a lookup that starts below it.
proof fn lemma_stack_lookup_drop_last(frames: Seq<Seq<ObjModel>>, name: Seq<char>, j: int)
    requires
        frames.len() > 0,
        j <= frames.len() - 2,
    ensures
        stack_lookup_from(frames.drop_last(), name, j) == stack_lookup_from(frames, name, j),
    decreases j + 1,
{
    if 0 <= j {
        assert(frames.drop_last()[j] == frames[j]);
        lemma_stack_lookup_drop_last(frames, name, j - 1);
    }
}

/// An assignment never changes how many frames are active.
pub proof fn lemma_stack_set_len(frames: Seq<Seq<ObjModel>>, key: ObjModel, v: ObjModel)
    ensures
        stack_set(frames, key, v) matches Some(u) ==> u.len() == frames.len(),
{
    if key.val is Symbol {
        let name = name_of_key(key);
        lemma_stack_set_from(frames, name, v, frames.len() - 1);
    }
}

/// Law: immediately after an assignment of `v` to the symbol `key`, looking
/// the symbol up yields exactly `v`, whichever frame the binding landed in.
pub proof fn lemma_set_then_get(frames: Seq<Seq<ObjModel>>, key: ObjModel, v: ObjModel)
    requires
        frames.len() > 0,
        key.val is Symbol,
    ensures
        stack_set(frames, key, v) matches Some(updated) && stack_lookup(
            updated,
            name_of_key(key),
        ) == Some(v),
{
    let name = name_of_key(key);
    lemma_stack_set_from(frames, name, v, frames.len() - 1);
    if stack_set_from(frames, name, v, frames.len() - 1) is None {
        let u = frames.update(frames.len() - 1, frames.last().push(new_binding(key, v)));
        assert(frame_lookup(frames.last(), name) is None);
        lemma_frame_lookup_push(frames.last(), name, new_binding(key, v), 0);
        assert(is_binding_for(new_binding(key, v), name));
        assert(frame_lookup(u[frames.len() - 1], name) == Some(v));
    }
}

/// Law: after an assignment to a symbol that no still-active outer scope
/// binds, discarding the innermost scope leaves the symbol unbound again:
/// the binding lived and died with that scope.
pub proof fn lemma_set_then_pop(frames: Seq<Seq<ObjModel>>, key: ObjModel, v: ObjModel)
    requires
        frames.len() > 0,
        key.val is Symbol,
        stack_lookup_from(frames, name_of_key(key), frames.len() - 2) is None,
    ensures
        stack_set(frames, key, v) matches Some(updated) && updated.len() == frames.len()
            && stack_lookup(updated.drop_last(), name_of_key(key)) is None,
{
    let name = name_of_key(key);
    let len = frames.len() as int;
    if frame_lookup(frames[len - 1], name) is Some {
        let u = frames.update(len - 1, frame_set(frames[len - 1], name, v));
        assert(stack_set(frames, key, v) == Some(u));
        assert(u.drop_last() =~= frames.drop_last());
        lemma_stack_lookup_drop_last(frames, name, len - 2);
    } else {
        lemma_stack_set_from(frames, name, v, len - 2);
        assert(stack_set_from(frames, name, v, len - 1) == stack_set_from(
            frames,
            name,
            v,
            len - 2,
        ));
        assert(stack_set_from(frames, name, v, len - 2) is None);
        let u = frames.update(len - 1, frames.last().push(new_binding(key, v)));
        assert(stack_set(frames, key, v) == Some(u));
        assert(u.drop_last() =~= frames.drop_last());
        lemma_stack_lookup_drop_last(frames, name, len - 2);
    }
}

} // verus!
