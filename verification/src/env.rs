//! The environment: an arena of scope frames addressed by stable indices.
//!
//! A frame maps names to values and points to its parent by index; the
//! parent is fixed at creation and always refers to an earlier frame, so
//! lookup walks strictly downward and terminates. Frames are never freed
//! mid-session, which gives lambda closures and child frames shared access
//! to their ancestors without reference counting.
use vstd::prelude::*;

use crate::object::{obj_view, Object, Val};

verus! {

/// One scope frame: local bindings plus an optional parent frame index.
pub struct Frame {
    pub parent: Option<usize>,
    pub bindings: Vec<(String, Object)>,
}

/// The arena of frames. Frame 0 is the root (global) frame.
pub struct Env {
    pub frames: Vec<Frame>,
}

/// Mathematical view of one frame: the parent index and the binding map.
#[verifier::ext_equal]
pub struct FrameV {
    pub parent: Option<int>,
    pub bindings: Map<Seq<char>, Val>,
}

/// The binding map described by an association list: a later pair for the
/// same name overwrites an earlier one.
pub open spec fn assoc_map(s: Seq<(String, Object)>) -> Map<Seq<char>, Val>
    decreases s,
{
    if s.len() == 0 {
        Map::empty()
    } else {
        assoc_map(s.drop_last()).insert(s.last().0@, obj_view(s.last().1))
    }
}

/// The most recent binding of a name in an association list, if any.
pub open spec fn assoc_get(s: Seq<(String, Object)>, k: Seq<char>) -> Option<Val>
    decreases s,
{
    if s.len() == 0 {
        Option::None
    } else if s.last().0@ == k {
        Option::Some(obj_view(s.last().1))
    } else {
        assoc_get(s.drop_last(), k)
    }
}

pub proof fn lemma_assoc_get_is_map(s: Seq<(String, Object)>, k: Seq<char>)
    ensures
        assoc_get(s, k) == if assoc_map(s).contains_key(k) {
            Option::Some(assoc_map(s)[k])
        } else {
            Option::<Val>::None
        },
    decreases s,
{
    if s.len() > 0 {
        lemma_assoc_get_is_map(s.drop_last(), k);
    }
}

pub open spec fn frame_view(f: Frame) -> FrameV {
    FrameV {
        parent: match f.parent {
            Option::None => Option::None,
            Option::Some(p) => Option::Some(p as int),
        },
        bindings: assoc_map(f.bindings@),
    }
}

impl View for Env {
    type V = Seq<FrameV>;

    open spec fn view(&self) -> Seq<FrameV> {
        Seq::new(self.frames@.len(), |i: int| frame_view(self.frames@[i]))
    }
}

/// Structural well-formedness of the frame graph: there is a root frame,
/// and every parent link points to an earlier frame.
pub open spec fn env_wf(fv: Seq<FrameV>) -> bool {
    &&& fv.len() >= 1
    &&& fv[0].parent is None
    &&& forall|i: int|
        0 <= i < fv.len() ==> match #[trigger] fv[i].parent {
            Option::None => true,
            Option::Some(p) => 0 <= p < i,
        }
}

/// Name resolution: walk from frame `e` outward to the root and return the
/// first binding found.
pub open spec fn lookup_spec(fv: Seq<FrameV>, e: int, name: Seq<char>) -> Option<Val>
    decreases (if e >= 0 { e } else { 0 }),
{
    if e < 0 || e >= fv.len() {
        Option::None
    } else if fv[e].bindings.contains_key(name) {
        Option::Some(fv[e].bindings[name])
    } else {
        match fv[e].parent {
            Option::None => Option::None,
            Option::Some(p) => if 0 <= p < e {
                lookup_spec(fv, p, name)
            } else {
                Option::None
            },
        }
    }
}

pub open spec fn opt_obj_view(r: Option<Object>) -> Option<Val> {
    match r {
        Option::None => Option::None,
        Option::Some(o) => Option::Some(o@),
    }
}

impl Env {
    /// A fresh session environment: one empty root frame.
    pub fn new() -> (e: Env)
        ensures
            e@.len() == 1,
            e@[0].parent is None,
            e@[0].bindings == Map::<Seq<char>, Val>::empty(),
            env_wf(e@),
    {
        let mut frames: Vec<Frame> = Vec::new();
        frames.push(Frame { parent: Option::None, bindings: Vec::new() });
        Env { frames }
    }

    /// Create an empty child frame of `parent` and return its index.
    pub fn extend(&mut self, parent: usize) -> (idx: usize)
        requires
            parent < old(self)@.len(),
        ensures
            idx == old(self)@.len(),
            final(self)@ == old(self)@.push(
                FrameV { parent: Option::Some(parent as int), bindings: Map::empty() },
            ),
            env_wf(old(self)@) ==> env_wf(final(self)@),
    {
        let idx = self.frames.len();
        self.frames.push(Frame { parent: Option::Some(parent), bindings: Vec::new() });
        proof {
            assert(self@ =~= old(self)@.push(
                FrameV { parent: Option::Some(parent as int), bindings: Map::empty() },
            ));
        }
        idx
    }

    /// Insert-or-overwrite a binding in the local frame `frame` alone.
    pub fn set(&mut self, frame: usize, name: &String, val: Object)
        requires
            frame < old(self)@.len(),
        ensures
            final(self)@ == old(self)@.update(
                frame as int,
                FrameV {
                    parent: old(self)@[frame as int].parent,
                    bindings: old(self)@[frame as int].bindings.insert(name@, val@),
                },
            ),
            env_wf(old(self)@) ==> env_wf(final(self)@),
    {
        let ghost oldb = self.frames@[frame as int].bindings@;
        let mut f = self.frames.remove(frame);
        f.bindings.push((name.clone(), val));
        self.frames.insert(frame, f);
        proof {
            assert(self.frames@[frame as int].bindings@.drop_last() =~= oldb);
            assert(self@ =~= old(self)@.update(
                frame as int,
                FrameV {
                    parent: old(self)@[frame as int].parent,
                    bindings: old(self)@[frame as int].bindings.insert(name@, val@),
                },
            ));
        }
    }

    /// Resolve `name` from frame `frame` outward; `None` means unbound.
    pub fn get(&self, frame: usize, name: &String) -> (r: Option<Object>)
        requires
            env_wf(self@),
            frame < self@.len(),
        ensures
            opt_obj_view(r) == lookup_spec(self@, frame as int, name@),
    {
        let mut cur: usize = frame;
        loop
            invariant
                env_wf(self@),
                cur < self@.len(),
                lookup_spec(self@, frame as int, name@) == lookup_spec(self@, cur as int, name@),
            decreases cur,
        {
            match self.frame_get(cur, name) {
                Option::Some(v) => {
                    proof {
                        lemma_assoc_get_is_map(self.frames@[cur as int].bindings@, name@);
                    }
                    return Option::Some(v);
                }
                Option::None => {
                    proof {
                        lemma_assoc_get_is_map(self.frames@[cur as int].bindings@, name@);
                    }
                    let parent = self.frames[cur].parent;
                    match parent {
                        Option::Some(p) => {
                            cur = p;
                        }
                        Option::None => {
                            return Option::None;
                        }
                    }
                }
            }
        }
    }

    /// Scan one frame's local bindings, most recent first.
    fn frame_get(&self, frame: usize, name: &String) -> (r: Option<Object>)
        requires
            frame < self@.len(),
        ensures
            opt_obj_view(r) == assoc_get(self.frames@[frame as int].bindings@, name@),
    {
        let b = &self.frames[frame].bindings;
        let ghost s = b@;
        proof {
            assert(s.subrange(0, s.len() as int) =~= s);
        }
        let mut j: usize = b.len();
        while j > 0
            invariant
                j <= b@.len(),
                b@ == s,
                frame < self@.len(),
                s == self.frames@[frame as int].bindings@,
                assoc_get(s, name@) == assoc_get(s.subrange(0, j as int), name@),
            decreases j,
        {
            proof {
                assert(s.subrange(0, j as int).last() == s[j - 1]);
                assert(s.subrange(0, j as int).drop_last() =~= s.subrange(0, j as int - 1));
            }
            if string_eq(&b[j - 1].0, name) {
                proof {
                    assert(assoc_get(s.subrange(0, j as int), name@) == Option::Some(
                        obj_view(s[j as int - 1].1),
                    ));
                }
                return Option::Some(b[j - 1].1.duplicate());
            }
            j = j - 1;
        }
        proof {
            assert(s.subrange(0, 0) =~= Seq::<(String, Object)>::empty());
        }
        Option::None
    }
}

/// Equality of two strings as their character sequences.
pub fn string_eq(a: &String, b: &String) -> (r: bool)
    ensures
        r == (a@ == b@),
{
    a.eq(b)
}

} // verus!
