//! The mathematical model of paths: abstract components, the decomposition
//! of a character sequence into components, the rendering of components back
//! into characters, and the trimming operation itself.

use vstd::prelude::*;

verus! {

/// The two path conventions the library understands. They differ in the
/// separator character and in whether a drive prefix (`C:`) can root a path.
#[derive(Clone, Copy, Debug, PartialEq, Eq, Structural)]
pub enum PathStyle {
    /// `/`-separated paths, rooted by a leading `/`.
    Unix,
    /// `\`-separated paths, rooted by a drive prefix (`C:\`) or a leading `\`.
    Windows,
}

/// A path component in the abstract model. A drive prefix such as `C:\` is a
/// single root-marker component.
pub enum AbsComponent {
    /// The root marker of an absolute path without a drive (`/` or `\`).
    Root,
    /// A drive root marker (`C:\`), carrying its two-character textual
    /// prefix: the drive letter and the colon.
    Drive(Seq<char>),
    /// The current-directory reference `.`.
    CurDir,
    /// The parent-directory reference `..`.
    ParentDir,
    /// A named segment: any other run of non-separator characters.
    Normal(Seq<char>),
}

/// The separator character of a style.
pub open spec fn sep_char(style: PathStyle) -> char {
    match style {
        PathStyle::Unix => '/',
        PathStyle::Windows => '\\',
    }
}

/// Whether `c` is an ASCII letter, the only characters accepted as drive names.
pub open spec fn is_ascii_letter(c: char) -> bool {
    (65 <= c as u32 && c as u32 <= 90) || (97 <= c as u32 && c as u32 <= 122)
}

/// Whether no character of `w` is the separator `sep`.
pub open spec fn is_sep_free(w: Seq<char>, sep: char) -> bool {
    forall|i: int| 0 <= i < w.len() ==> w[i] != sep
}

/// The component denoted by one non-empty separator-free segment.
pub open spec fn classify(seg: Seq<char>) -> AbsComponent {
    if seg.len() == 1 && seg[0] == '.' {
        AbsComponent::CurDir
    } else if seg.len() == 2 && seg[0] == '.' && seg[1] == '.' {
        AbsComponent::ParentDir
    } else {
        AbsComponent::Normal(seg)
    }
}

/// The length of the leading separator-free segment of `s`: the index of the
/// first occurrence of `sep`, or the length of `s` if it does not occur.
pub open spec fn seg_len(s: Seq<char>, sep: char) -> int
    decreases s.len(),
{
    if s.len() == 0 || s[0] == sep {
        0
    } else {
        1 + seg_len(s.skip(1), sep)
    }
}

/// The leading segment is never empty and never longer than the sequence.
pub proof fn lemma_seg_len_bounds(s: Seq<char>, sep: char)
    ensures
        0 <= seg_len(s, sep) <= s.len(),
        s.len() > 0 && s[0] != sep ==> 1 <= seg_len(s, sep),
    decreases s.len(),
{
    if s.len() > 0 && s[0] != sep {
        lemma_seg_len_bounds(s.skip(1), sep);
    }
}

/// `seg_len` finds exactly the position of the first separator: if the first
/// `k` characters are free of it and it stands at `k` (or `k` is the end),
/// the leading segment has length `k`.
pub proof fn lemma_seg_len_at(s: Seq<char>, sep: char, k: int)
    requires
        0 <= k <= s.len(),
        forall|j: int| 0 <= j < k ==> s[j] != sep,
        k == s.len() || s[k] == sep,
    ensures
        seg_len(s, sep) == k,
    decreases k,
{
    if k > 0 {
        assert(s[0] != sep);
        assert forall|j: int| 0 <= j < k - 1 implies s.skip(1)[j] != sep by {
            assert(s.skip(1)[j] == s[j + 1]);
        }
        if k < s.len() {
            assert(s.skip(1)[k - 1] == s[k]);
        }
        lemma_seg_len_at(s.skip(1), sep, k - 1);
    }
}

/// Decomposition of a character sequence that carries no root marker:
/// split on `sep`, drop empty segments, classify each remaining segment.
pub open spec fn parse_rel(s: Seq<char>, sep: char) -> Seq<AbsComponent>
    decreases s.len(),
    via parse_rel_decreases
{
    if s.len() == 0 {
        Seq::empty()
    } else if s[0] == sep {
        parse_rel(s.skip(1), sep)
    } else {
        let k = seg_len(s, sep);
        seq![classify(s.take(k))] + parse_rel(s.skip(k), sep)
    }
}

#[via_fn]
proof fn parse_rel_decreases(s: Seq<char>, sep: char) {
    if s.len() > 0 && s[0] != sep {
        lemma_seg_len_bounds(s, sep);
    }
}

/// Whether `s` begins with a drive prefix: an ASCII letter and a colon,
/// followed by a separator or by nothing.
pub open spec fn has_drive_prefix(s: Seq<char>, style: PathStyle) -> bool {
    &&& style == PathStyle::Windows
    &&& s.len() >= 2
    &&& is_ascii_letter(s[0])
    &&& s[1] == ':'
    &&& (s.len() == 2 || s[2] == sep_char(style))
}

/// Decomposition of a character sequence into its ordered components.
pub open spec fn parse_spec(s: Seq<char>, style: PathStyle) -> Seq<AbsComponent> {
    if has_drive_prefix(s, style) {
        seq![AbsComponent::Drive(s.take(2))] + parse_rel(s.skip(2), sep_char(style))
    } else if s.len() >= 1 && s[0] == sep_char(style) {
        seq![AbsComponent::Root] + parse_rel(s, sep_char(style))
    } else {
        parse_rel(s, sep_char(style))
    }
}

/// The characters of one component when it stands between separators.
/// Root markers never stand there in a well-formed path; they render empty.
pub open spec fn word(c: AbsComponent) -> Seq<char> {
    match c {
        AbsComponent::Root => Seq::empty(),
        AbsComponent::Drive(_) => Seq::empty(),
        AbsComponent::CurDir => seq!['.'],
        AbsComponent::ParentDir => seq!['.', '.'],
        AbsComponent::Normal(w) => w,
    }
}

/// The components rendered in order, separated by `sep`.
pub open spec fn join_rel(cs: Seq<AbsComponent>, sep: char) -> Seq<char>
    decreases cs.len(),
{
    if cs.len() == 0 {
        Seq::empty()
    } else if cs.len() == 1 {
        word(cs[0])
    } else {
        word(cs[0]) + seq![sep] + join_rel(cs.skip(1), sep)
    }
}

/// Rendering of a component sequence into characters: a leading root marker
/// is rendered in its platform form, the rest joined by the separator.
pub open spec fn render_spec(cs: Seq<AbsComponent>, style: PathStyle) -> Seq<char> {
    let sep = sep_char(style);
    if cs.len() == 0 {
        Seq::empty()
    } else {
        match cs[0] {
            AbsComponent::Root => seq![sep] + join_rel(cs.skip(1), sep),
            AbsComponent::Drive(p) => p + seq![sep] + join_rel(cs.skip(1), sep),
            _ => join_rel(cs, sep),
        }
    }
}

/// Well-formedness of a component that does not stand first: a reference
/// component, or a named segment that is non-empty, free of the separator,
/// and not mistakable for `.` or `..`.
pub open spec fn wf_rel(c: AbsComponent, sep: char) -> bool {
    match c {
        AbsComponent::CurDir => true,
        AbsComponent::ParentDir => true,
        AbsComponent::Normal(w) => {
            &&& w.len() > 0
            &&& is_sep_free(w, sep)
            &&& !(w.len() == 1 && w[0] == '.')
            &&& !(w.len() == 2 && w[0] == '.' && w[1] == '.')
        },
        _ => false,
    }
}

/// Well-formedness of a leading component: additionally a root marker, with
/// a drive marker only in Windows style and with a letter for its drive.
pub open spec fn wf_head(c: AbsComponent, style: PathStyle) -> bool {
    match c {
        AbsComponent::Root => true,
        AbsComponent::Drive(p) => {
            &&& style == PathStyle::Windows
            &&& p.len() == 2
            &&& is_ascii_letter(p[0])
            &&& p[1] == ':'
        },
        _ => wf_rel(c, sep_char(style)),
    }
}

/// Well-formedness of a whole component sequence: every decomposition
/// produces such a sequence, and trimming preserves it.
pub open spec fn wf_comps(cs: Seq<AbsComponent>, style: PathStyle) -> bool {
    &&& (cs.len() > 0 ==> wf_head(cs[0], style))
    &&& (forall|i: int| 1 <= i < cs.len() ==> wf_rel(cs[i], sep_char(style)))
}

/// Whether a component is a named segment that reads exactly like a drive
/// prefix (`C:`). Decomposition never puts one first, but trimming the
/// middle of a Windows-style path can.
pub open spec fn drive_shaped(c: AbsComponent) -> bool {
    match c {
        AbsComponent::Normal(w) => w.len() == 2 && is_ascii_letter(w[0]) && w[1] == ':',
        _ => false,
    }
}

/// Whether a leading drive-shaped named segment is absent, so that rendering
/// and re-decomposing gives back the components exactly. Decomposition
/// always establishes this.
pub open spec fn head_ok(cs: Seq<AbsComponent>, style: PathStyle) -> bool {
    style == PathStyle::Windows && cs.len() > 0 ==> !drive_shaped(cs[0])
}

/// Every suffix of a well-formed component sequence is well-formed.
pub proof fn lemma_wf_suffix(cs: Seq<AbsComponent>, style: PathStyle, k: int)
    requires
        wf_comps(cs, style),
        0 <= k <= cs.len(),
    ensures
        wf_comps(cs.subrange(k, cs.len() as int), style),
{
    let t = cs.subrange(k, cs.len() as int);
    if t.len() > 0 && k > 0 {
        assert(wf_rel(cs[k], sep_char(style)));
    }
    assert forall|i: int| 1 <= i < t.len() implies wf_rel(t[i], sep_char(style)) by {
        assert(wf_rel(cs[k + i], sep_char(style)));
    }
}

/// The trimming operation on the model: the last `n` components when at
/// least `n` exist, absence otherwise. Keeping zero components is legal and
/// yields the empty sequence.
pub open spec fn trim_spec(cs: Seq<AbsComponent>, n: int) -> Option<Seq<AbsComponent>> {
    if 0 <= n <= cs.len() {
        Some(cs.subrange(cs.len() - n, cs.len() as int))
    } else {
        None
    }
}

} // verus!
