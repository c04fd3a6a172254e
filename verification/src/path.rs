//! The executable path value: owned components, decomposition from and
//! rendering to text, and the trimming operation.

use vstd::prelude::*;

use crate::model::AbsComponent;
use crate::model::PathStyle;
use crate::model::trim_spec;
use crate::model::wf_comps;

verus! {

/// An owned path component. A drive prefix such as `C:\` is a single
/// root-marker component.
pub enum Component {
    /// The root marker of an absolute path without a drive (`/` or `\`).
    Root,
    /// A drive root marker (`C:\`), carrying its two-character textual
    /// prefix: the drive letter and the colon.
    Drive(String),
    /// The current-directory reference `.`.
    CurDir,
    /// The parent-directory reference `..`.
    ParentDir,
    /// A named segment: any other run of non-separator characters.
    Normal(String),
}

impl View for Component {
    type V = AbsComponent;

    open spec fn view(&self) -> AbsComponent {
        match self {
            Component::Root => AbsComponent::Root,
            Component::Drive(p) => AbsComponent::Drive(p@),
            Component::CurDir => AbsComponent::CurDir,
            Component::ParentDir => AbsComponent::ParentDir,
            Component::Normal(w) => AbsComponent::Normal(w@),
        }
    }
}

impl Clone for Component {
    fn clone(&self) -> (r: Self)
        ensures
            r@ == self@,
    {
        match self {
            Component::Root => Component::Root,
            Component::Drive(p) => Component::Drive(p.clone()),
            Component::CurDir => Component::CurDir,
            Component::ParentDir => Component::ParentDir,
            Component::Normal(w) => Component::Normal(w.clone()),
        }
    }
}

/// The abstraction of a component vector: its components in the model.
pub open spec fn comps_view(cs: Seq<Component>) -> Seq<AbsComponent> {
    cs.map_values(|c: Component| c@)
}

/// An owned path value: an ordered sequence of components together with the
/// style it was decomposed under. The input it came from is never mutated;
/// trimming builds a fresh value.
pub struct ParsedPath {
    components: Vec<Component>,
    style: PathStyle,
}

impl View for ParsedPath {
    type V = Seq<AbsComponent>;

    closed spec fn view(&self) -> Seq<AbsComponent> {
        comps_view(self.components@)
    }
}

impl ParsedPath {
    /// The style the path was decomposed under.
    pub closed spec fn style(&self) -> PathStyle {
        self.style
    }

    /// Every path the library hands out is well-formed in the model's sense.
    pub open spec fn wf(&self) -> bool {
        wf_comps(self@, self.style())
    }

    /// The number of components, the root marker counting as one.
    pub fn component_count(&self) -> (n: usize)
        ensures
            n == self@.len(),
    {
        self.components.len()
    }

    /// The style the path was decomposed under, as a value.
    pub fn style_of(&self) -> (st: PathStyle)
        ensures
            st == self.style(),
    {
        self.style
    }

    /// A borrow of the component at position `i`.
    pub fn component_at(&self, i: usize) -> (c: &Component)
        requires
            i < self@.len(),
        ensures
            c@ == self@[i as int],
    {
        &self.components[i]
    }

    /// Builds a path directly from components. Tests and callers that hold
    /// components of their own can enter the model without text.
    pub fn from_components(components: Vec<Component>, style: PathStyle) -> (p: ParsedPath)
        ensures
            p@ == comps_view(components@),
            p.style() == style,
    {
        ParsedPath { components, style }
    }

    /// Returns a fresh path holding exactly the last `n` components of this
    /// one, in their original order, or `None` when fewer than `n` components
    /// exist. `n` equal to the component count returns the whole path;
    /// `n == 0` returns an empty path.
    pub fn trim_to_last_n(&self, n: usize) -> (r: Option<ParsedPath>)
        ensures
            r is Some <==> n <= self@.len(),
            r matches Some(t) ==> {
                &&& Some(t@) == trim_spec(self@, n as int)
                &&& t@ == self@.subrange(self@.len() - n, self@.len() as int)
                &&& t@.len() == n
                &&& t.style() == self.style()
                &&& self.wf() ==> t.wf()
            },
    {
        let len = self.components.len();
        if n > len {
            return None;
        }
        let start = len - n;
        let mut out: Vec<Component> = Vec::new();
        let mut i = start;
        while i < len
            invariant
                start <= i <= len,
                len == self.components@.len(),
                out@.len() == i - start,
                forall|k: int| 0 <= k < out@.len() ==> out@[k]@ == self.components@[start + k]@,
            decreases len - i,
        {
            out.push(self.components[i].clone());
            i += 1;
        }
        let t = ParsedPath { components: out, style: self.style };
        proof {
            assert(t@ =~= self@.subrange(start as int, len as int));
            assert(self.wf() ==> t.wf()) by {
                if self.wf() {
                    crate::model::lemma_wf_suffix(self@, self.style(), start as int);
                }
            }
        }
        Some(t)
    }
}

/// A value that decomposes into path components and can therefore be
/// trimmed to its last `n` components.
pub trait TrimmablePath {
    /// The ordered components of the value.
    spec fn path_model(&self) -> Seq<AbsComponent>;

    /// The style its components are understood under.
    spec fn path_style(&self) -> PathStyle;

    /// Returns a fresh path holding exactly the last `n` components, in
    /// their original order, or `None` when fewer than `n` exist.
    fn trim_to_nth(&self, n: usize) -> (r: Option<ParsedPath>)
        ensures
            r is Some <==> n <= self.path_model().len(),
            r matches Some(t) ==> {
                &&& Some(t@) == trim_spec(self.path_model(), n as int)
                &&& t@.len() == n
                &&& t.style() == self.path_style()
                &&& wf_comps(self.path_model(), self.path_style()) ==> t.wf()
            },
    ;
}

impl TrimmablePath for ParsedPath {
    open spec fn path_model(&self) -> Seq<AbsComponent> {
        self@
    }

    open spec fn path_style(&self) -> PathStyle {
        self.style()
    }

    fn trim_to_nth(&self, n: usize) -> (r: Option<ParsedPath>) {
        self.trim_to_last_n(n)
    }
}

} // verus!
