//! Decomposition of path text into a `ParsedPath`, proved to agree with the
//! model's `parse_spec`.

use vstd::prelude::*;

use crate::model::AbsComponent;
use crate::model::PathStyle;
use crate::model::has_drive_prefix;
use crate::model::is_ascii_letter;
use crate::model::lemma_seg_len_at;
use crate::model::parse_rel;
use crate::model::parse_spec;
use crate::model::sep_char;
use crate::model::classify;
use crate::path::Component;
use crate::path::ParsedPath;
use crate::path::comps_view;

verus! {

/// The separator character of a style, as a value.
pub fn sep_char_of(style: PathStyle) -> (c: char)
    ensures
        c == sep_char(style),
{
    match style {
        PathStyle::Unix => '/',
        PathStyle::Windows => '\\',
    }
}

/// Whether `c` is an ASCII letter.
fn is_ascii_letter_exec(c: char) -> (b: bool)
    ensures
        b == is_ascii_letter(c),
{
    let u = c as u32;
    (65 <= u && u <= 90) || (97 <= u && u <= 122)
}

/// Whether the text begins with a drive prefix in the given style.
fn has_drive_prefix_exec(s: &str, style: PathStyle) -> (b: bool)
    ensures
        b == has_drive_prefix(s@, style),
{
    match style {
        PathStyle::Unix => false,
        PathStyle::Windows => {
            let len = s.unicode_len();
            if len >= 2 && is_ascii_letter_exec(s.get_char(0)) && s.get_char(1) == ':' {
                len == 2 || s.get_char(2) == '\\'
            } else {
                false
            }
        },
    }
}

impl ParsedPath {
    /// Decomposes `s` into its ordered components under `style`: an optional
    /// leading root marker (`/`, `\` or a drive prefix `C:\`), then one
    /// component per non-empty run of non-separator characters, with `.` and
    /// `..` recognized as the current- and parent-directory references.
    /// Repeated and trailing separators are ignored. The input is read only;
    /// the result owns its components.
    pub fn parse(s: &str, style: PathStyle) -> (p: ParsedPath)
        ensures
            p@ == parse_spec(s@, style),
            p.style() == style,
            p.wf(),
            crate::model::head_ok(p@, style),
    {
        proof {
            crate::laws::lemma_parse_wf(s@, style);
        }
        let ghost target = parse_spec(s@, style);
        let sep = sep_char_of(style);
        let len = s.unicode_len();
        let mut comps: Vec<Component> = Vec::new();
        let mut i: usize = 0;
        if has_drive_prefix_exec(s, style) {
            comps.push(Component::Drive(String::from_str(s.substring_char(0, 2))));
            i = 2;
            proof {
                assert(s@.subrange(0, 2) =~= s@.take(2));
                assert(comps_view(comps@) =~= seq![AbsComponent::Drive(s@.take(2))]);
            }
        } else if len >= 1 && s.get_char(0) == sep {
            comps.push(Component::Root);
            proof {
                assert(comps_view(comps@) =~= seq![AbsComponent::Root]);
                assert(s@.skip(0) =~= s@);
            }
        } else {
            proof {
                assert(comps_view(comps@) =~= Seq::<AbsComponent>::empty());
                assert(s@.skip(0) =~= s@);
                assert(comps_view(comps@) + parse_rel(s@, sep) =~= parse_rel(s@, sep));
            }
        }
        assert(comps_view(comps@) + parse_rel(s@.skip(i as int), sep_char(style)) == target);
        while i < len
            invariant
                i <= len,
                len == s@.len(),
                sep == sep_char(style),
                target == parse_spec(s@, style),
                comps_view(comps@) + parse_rel(s@.skip(i as int), sep_char(style)) == target,
            decreases len - i,
        {
            let ghost comps0 = comps@;
            let ghost i0: int = i as int;
            let ghost t = s@.skip(i0);
            if s.get_char(i) == sep {
                i += 1;
                proof {
                    assert(t[0] == s@[i0]);
                    assert(t.skip(1) =~= s@.skip(i0 + 1));
                }
            } else {
                let start: usize = i;
                while i < len && s.get_char(i) != sep
                    invariant
                        start <= i <= len,
                        start < len,
                        len == s@.len(),
                        sep == sep_char(style),
                        s@[start as int] != sep,
                        forall|j: int| start <= j < i ==> s@[j] != sep,
                    decreases len - i,
                {
                    i += 1;
                }
                let ghost k: int = i as int - start as int;
                proof {
                    assert forall|j: int| 0 <= j < k implies t[j] != sep by {
                        assert(t[j] == s@[i0 + j]);
                    }
                    if i < len {
                        assert(t[k] == s@[i as int]);
                    }
                    lemma_seg_len_at(t, sep, k);
                    assert(t.take(k) =~= s@.subrange(start as int, i as int));
                    assert(t.skip(k) =~= s@.skip(i as int));
                }
                let seg_chars: usize = i - start;
                let c: Component = if seg_chars == 1 && s.get_char(start) == '.' {
                    Component::CurDir
                } else if seg_chars == 2 && s.get_char(start) == '.' && s.get_char(start + 1) == '.' {
                    Component::ParentDir
                } else {
                    Component::Normal(String::from_str(s.substring_char(start, i)))
                };
                proof {
                    let seg = t.take(k);
                    assert(seg.len() == k);
                    assert forall|j: int| 0 <= j < k implies seg[j] == s@[i0 + j] by {
                        assert(t[j] == s@[i0 + j]);
                    }
                    assert(c@ == classify(seg));
                    assert(parse_rel(t, sep) == seq![classify(seg)] + parse_rel(t.skip(k), sep));
                }
                comps.push(c);
                proof {
                    assert(comps_view(comps@) =~= comps_view(comps0).push(c@));
                    assert(comps_view(comps0).push(c@) + parse_rel(s@.skip(i as int), sep)
                        =~= comps_view(comps0) + (seq![c@] + parse_rel(s@.skip(i as int), sep)));
                }
            }
        }
        proof {
            assert(s@.skip(len as int) =~= Seq::<char>::empty());
            assert(comps_view(comps@) + parse_rel(s@.skip(len as int), sep) =~= comps_view(comps@));
        }
        ParsedPath::from_components(comps, style)
    }
}

} // verus!
