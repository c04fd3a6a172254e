//! The laws of trimming: decomposition always yields well-formed components,
//! rendering and re-decomposing a well-formed path gives the components back,
//! and trimming keeps exactly the requested trailing components.

use vstd::prelude::*;

use crate::model::AbsComponent;
use crate::model::PathStyle;
use crate::model::classify;
use crate::model::drive_shaped;
use crate::model::has_drive_prefix;
use crate::model::head_ok;
use crate::model::is_ascii_letter;
use crate::model::is_sep_free;
use crate::model::join_rel;
use crate::model::lemma_seg_len_at;
use crate::model::lemma_seg_len_bounds;
use crate::model::lemma_wf_suffix;
use crate::model::parse_rel;
use crate::model::parse_spec;
use crate::model::render_spec;
use crate::model::seg_len;
use crate::model::sep_char;
use crate::model::trim_spec;
use crate::model::wf_comps;
use crate::model::wf_rel;
use crate::model::word;

verus! {

/// No character strictly before the end of the leading segment is the separator.
proof fn lemma_seg_len_free(s: Seq<char>, sep: char)
    ensures
        forall|j: int| 0 <= j < seg_len(s, sep) ==> s[j] != sep,
    decreases s.len(),
{
    lemma_seg_len_bounds(s, sep);
    if s.len() > 0 && s[0] != sep {
        lemma_seg_len_bounds(s.skip(1), sep);
        lemma_seg_len_free(s.skip(1), sep);
        assert forall|j: int| 0 <= j < seg_len(s, sep) implies s[j] != sep by {
            if j > 0 {
                assert(s.skip(1)[j - 1] == s[j]);
            }
        }
    }
}

/// When the leading segment ends before the end of the text, a separator
/// stands right after it.
proof fn lemma_seg_len_sep_at(s: Seq<char>, sep: char)
    requires
        seg_len(s, sep) < s.len(),
    ensures
        s[seg_len(s, sep)] == sep,
    decreases s.len(),
{
    if s.len() > 0 && s[0] != sep {
        lemma_seg_len_bounds(s.skip(1), sep);
        lemma_seg_len_sep_at(s.skip(1), sep);
        assert(s.skip(1)[seg_len(s.skip(1), sep)] == s[1 + seg_len(s.skip(1), sep)]);
    }
}

/// Every component of a rootless decomposition is well-formed.
proof fn lemma_parse_rel_wf(s: Seq<char>, sep: char)
    ensures
        forall|i: int| 0 <= i < parse_rel(s, sep).len() ==> wf_rel(
            #[trigger] parse_rel(s, sep)[i],
            sep,
        ),
    decreases s.len(),
{
    if s.len() == 0 {
    } else if s[0] == sep {
        lemma_parse_rel_wf(s.skip(1), sep);
        assert(parse_rel(s, sep) == parse_rel(s.skip(1), sep));
        assert forall|i: int| 0 <= i < parse_rel(s, sep).len() implies wf_rel(
            parse_rel(s, sep)[i],
            sep,
        ) by {
            assert(wf_rel(parse_rel(s.skip(1), sep)[i], sep));
        }
    } else {
        let k = seg_len(s, sep);
        lemma_seg_len_bounds(s, sep);
        lemma_seg_len_free(s, sep);
        let seg = s.take(k);
        assert(seg.len() == k);
        assert forall|j: int| 0 <= j < seg.len() implies seg[j] != sep by {
            assert(seg[j] == s[j]);
        }
        assert(wf_rel(classify(seg), sep));
        lemma_parse_rel_wf(s.skip(k), sep);
        assert(parse_rel(s, sep) == seq![classify(seg)] + parse_rel(s.skip(k), sep));
        assert forall|i: int| 0 <= i < parse_rel(s, sep).len() implies wf_rel(
            parse_rel(s, sep)[i],
            sep,
        ) by {
            if i == 0 {
                assert(parse_rel(s, sep)[0] == classify(seg));
            } else {
                assert(parse_rel(s, sep)[i] == parse_rel(s.skip(k), sep)[i - 1]);
                assert(wf_rel(parse_rel(s.skip(k), sep)[i - 1], sep));
            }
        }
    }
}

/// A decomposition that did not begin with a drive prefix never has a
/// drive-shaped named segment first.
proof fn lemma_parse_rel_head(s: Seq<char>, style: PathStyle)
    requires
        style == PathStyle::Windows,
        !has_drive_prefix(s, style),
        s.len() == 0 || s[0] != sep_char(style),
    ensures
        head_ok(parse_rel(s, sep_char(style)), style),
{
    let sep = sep_char(style);
    let cs = parse_rel(s, sep);
    if s.len() > 0 {
        let k = seg_len(s, sep);
        lemma_seg_len_bounds(s, sep);
        let seg = s.take(k);
        assert(cs[0] == classify(seg));
        if drive_shaped(classify(seg)) {
            assert(seg.len() == 2);
            assert(is_ascii_letter(s[0]) && s[1] == ':') by {
                assert(seg[0] == s[0] && seg[1] == s[1]);
            }
            if k < s.len() {
                lemma_seg_len_sep_at(s, sep);
            }
            assert(s.len() == 2 || s[2] == sep);
            assert(false);
        }
    }
}

/// Decomposition always yields a well-formed component sequence whose first
/// component is not a drive-shaped named segment.
pub proof fn lemma_parse_wf(s: Seq<char>, style: PathStyle)
    ensures
        wf_comps(parse_spec(s, style), style),
        head_ok(parse_spec(s, style), style),
{
    let sep = sep_char(style);
    let cs = parse_spec(s, style);
    if has_drive_prefix(s, style) {
        let p = s.take(2);
        lemma_parse_rel_wf(s.skip(2), sep);
        assert(cs == seq![AbsComponent::Drive(p)] + parse_rel(s.skip(2), sep));
        assert(cs[0] == AbsComponent::Drive(p));
        assert(p.len() == 2 && p[0] == s[0] && p[1] == s[1]);
        assert forall|i: int| 1 <= i < cs.len() implies wf_rel(cs[i], sep) by {
            assert(cs[i] == parse_rel(s.skip(2), sep)[i - 1]);
            assert(wf_rel(parse_rel(s.skip(2), sep)[i - 1], sep));
        }
    } else if s.len() >= 1 && s[0] == sep {
        lemma_parse_rel_wf(s, sep);
        assert(cs == seq![AbsComponent::Root] + parse_rel(s, sep));
        assert(cs[0] == AbsComponent::Root);
        assert forall|i: int| 1 <= i < cs.len() implies wf_rel(cs[i], sep) by {
            assert(cs[i] == parse_rel(s, sep)[i - 1]);
            assert(wf_rel(parse_rel(s, sep)[i - 1], sep));
        }
    } else {
        lemma_parse_rel_wf(s, sep);
        if cs.len() > 0 {
            assert(wf_rel(parse_rel(s, sep)[0], sep));
        }
        if style == PathStyle::Windows {
            lemma_parse_rel_head(s, style);
        }
    }
}

/// The word of a well-formed non-leading component: non-empty, free of the
/// separator, and classified back to the same component.
proof fn lemma_word_facts(c: AbsComponent, sep: char)
    requires
        wf_rel(c, sep),
        sep != '.',
    ensures
        word(c).len() > 0,
        is_sep_free(word(c), sep),
        classify(word(c)) == c,
{
}

/// Splitting the rendering of well-formed components on the separator gives
/// the components back.
proof fn lemma_join_roundtrip(cs: Seq<AbsComponent>, sep: char)
    requires
        forall|i: int| 0 <= i < cs.len() ==> wf_rel(#[trigger] cs[i], sep),
        sep != '.',
    ensures
        parse_rel(join_rel(cs, sep), sep) == cs,
    decreases cs.len(),
{
    let t = join_rel(cs, sep);
    if cs.len() == 0 {
        assert(parse_rel(t, sep) =~= cs);
    } else {
        let c0 = cs[0];
        let w = word(c0);
        lemma_word_facts(c0, sep);
        if cs.len() == 1 {
            assert(t == w);
            let wl = w.len() as int;
            assert(t[0] == w[0]);
            assert(t[0] != sep);
            lemma_seg_len_at(t, sep, wl);
            assert(t.take(wl) =~= w);
            assert(t.skip(wl) =~= Seq::<char>::empty());
            assert(parse_rel(t, sep) == seq![classify(t.take(wl))] + parse_rel(t.skip(wl), sep));
            assert(classify(t.take(wl)) == c0);
            assert(parse_rel(Seq::<char>::empty(), sep) =~= Seq::<AbsComponent>::empty());
            assert(parse_rel(t, sep) =~= cs);
        } else {
            let rest = join_rel(cs.skip(1), sep);
            let u = w + seq![sep];
            assert(t == u + rest);
            let wl = w.len() as int;
            assert(u.len() == wl + 1);
            assert forall|j: int| 0 <= j < wl implies t[j] != sep by {
                assert(t[j] == u[j]);
                assert(u[j] == w[j]);
            }
            assert(t[wl] == u[wl]);
            assert(u[wl] == sep);
            assert(t[0] == u[0]);
            assert(u[0] == w[0]);
            assert(t[0] != sep);
            lemma_seg_len_at(t, sep, wl);
            assert(t.take(wl) =~= w);
            assert(t.skip(wl) =~= seq![sep] + rest);
            assert((seq![sep] + rest)[0] == sep);
            assert((seq![sep] + rest).skip(1) =~= rest);
            assert(parse_rel(t.skip(wl), sep) == parse_rel(rest, sep));
            assert forall|i: int| 0 <= i < cs.skip(1).len() implies wf_rel(
                #[trigger] cs.skip(1)[i],
                sep,
            ) by {
                assert(cs.skip(1)[i] == cs[i + 1]);
            }
            lemma_join_roundtrip(cs.skip(1), sep);
            assert(parse_rel(t, sep) == seq![classify(t.take(wl))] + parse_rel(t.skip(wl), sep));
            assert(classify(t.take(wl)) == c0);
            assert(parse_rel(t, sep) =~= cs);
        }
    }
}

/// The separator is never a dot, a colon, or an ASCII letter.
proof fn lemma_sep_char_facts(style: PathStyle)
    ensures
        sep_char(style) != '.',
        sep_char(style) != ':',
        !is_ascii_letter(sep_char(style)),
{
}

/// Rendering a well-formed component sequence whose head is not drive-shaped
/// and decomposing the text again gives exactly the same components back.
pub proof fn lemma_render_roundtrip(cs: Seq<AbsComponent>, style: PathStyle)
    requires
        wf_comps(cs, style),
        head_ok(cs, style),
    ensures
        parse_spec(render_spec(cs, style), style) == cs,
{
    let sep = sep_char(style);
    let s = render_spec(cs, style);
    lemma_sep_char_facts(style);
    if cs.len() == 0 {
        assert(parse_spec(s, style) =~= cs);
    } else {
        let tail = cs.skip(1);
        assert forall|i: int| 0 <= i < tail.len() implies wf_rel(#[trigger] tail[i], sep) by {
            assert(tail[i] == cs[i + 1]);
        }
        match cs[0] {
            AbsComponent::Root => {
                assert(s == seq![sep] + join_rel(tail, sep));
                assert(s[0] == sep);
                assert(!has_drive_prefix(s, style));
                assert(s.skip(1) =~= join_rel(tail, sep));
                lemma_join_roundtrip(tail, sep);
                assert(parse_spec(s, style) == seq![AbsComponent::Root] + parse_rel(s, sep));
                assert(parse_rel(s, sep) == parse_rel(s.skip(1), sep));
                assert(parse_spec(s, style) =~= cs);
            },
            AbsComponent::Drive(p) => {
                let u = p + seq![sep];
                assert(s == u + join_rel(tail, sep));
                assert(u.len() == 3);
                assert(s[0] == u[0] && u[0] == p[0]);
                assert(s[1] == u[1] && u[1] == p[1]);
                assert(s[2] == u[2] && u[2] == sep);
                assert(has_drive_prefix(s, style));
                assert(s.take(2) =~= p);
                assert(s.skip(2) =~= seq![sep] + join_rel(tail, sep));
                assert((seq![sep] + join_rel(tail, sep))[0] == sep);
                assert((seq![sep] + join_rel(tail, sep)).skip(1) =~= join_rel(tail, sep));
                lemma_join_roundtrip(tail, sep);
                assert(parse_rel(s.skip(2), sep) == parse_rel(join_rel(tail, sep), sep));
                assert(parse_spec(s, style) == seq![AbsComponent::Drive(s.take(2))] + parse_rel(
                    s.skip(2),
                    sep,
                ));
                assert(parse_spec(s, style) =~= cs);
            },
            _ => {
                let c0 = cs[0];
                let w = word(c0);
                assert(wf_rel(c0, sep));
                lemma_word_facts(c0, sep);
                assert forall|i: int| 0 <= i < cs.len() implies wf_rel(#[trigger] cs[i], sep) by {
                    if i > 0 {
                        assert(wf_rel(cs[i], sep));
                    }
                }
                assert(s == join_rel(cs, sep));
                if cs.len() == 1 {
                    assert(s == w);
                } else {
                    let u = w + seq![sep];
                    assert(s == u + join_rel(tail, sep));
                }
                assert(!has_drive_prefix(s, style)) by {
                    if has_drive_prefix(s, style) {
                        match c0 {
                            AbsComponent::CurDir => {
                                assert(s[0] == '.');
                                assert(false);
                            },
                            AbsComponent::ParentDir => {
                                assert(s[0] == '.');
                                assert(false);
                            },
                            AbsComponent::Normal(wn) => {
                                if wn.len() == 1 {
                                    if cs.len() == 1 {
                                        assert(s.len() == 1);
                                    } else {
                                        assert(s[1] == (w + seq![sep])[1]);
                                        assert(s[1] == sep);
                                    }
                                    assert(false);
                                } else {
                                    assert(s[1] == wn[1]);
                                    assert(wn[1] == ':');
                                    if wn.len() == 2 {
                                        assert(is_ascii_letter(wn[0])) by {
                                            assert(s[0] == wn[0]);
                                        }
                                        assert(drive_shaped(c0));
                                        assert(false);
                                    } else {
                                        assert(s[2] == wn[2]);
                                        assert(wn[2] != sep);
                                        assert(s.len() > 2);
                                        assert(false);
                                    }
                                }
                            },
                            _ => {
                                assert(false);
                            },
                        }
                    }
                }
                assert(s.len() > 0 && s[0] != sep) by {
                    assert(s[0] == w[0]);
                }
                lemma_join_roundtrip(cs, sep);
                assert(parse_spec(s, style) == parse_rel(s, sep));
            },
        }
    }
}

/// Rendering a well-formed component sequence and decomposing the text again
/// yields the same number of components, whatever the head. The one head that
/// does not come back exactly is a drive-shaped named segment, which reads
/// back as a drive marker: one component either way.
pub proof fn lemma_render_count(cs: Seq<AbsComponent>, style: PathStyle)
    requires
        wf_comps(cs, style),
    ensures
        parse_spec(render_spec(cs, style), style).len() == cs.len(),
{
    let sep = sep_char(style);
    let s = render_spec(cs, style);
    lemma_sep_char_facts(style);
    if head_ok(cs, style) {
        lemma_render_roundtrip(cs, style);
    } else {
        let c0 = cs[0];
        let w = word(c0);
        assert(drive_shaped(c0));
        assert(wf_rel(c0, sep));
        lemma_word_facts(c0, sep);
        let tail = cs.skip(1);
        assert forall|i: int| 0 <= i < tail.len() implies wf_rel(#[trigger] tail[i], sep) by {
            assert(tail[i] == cs[i + 1]);
        }
        assert(s == join_rel(cs, sep));
        if cs.len() == 1 {
            assert(s == w);
            assert(s.len() == 2);
            assert(has_drive_prefix(s, style)) by {
                assert(s[0] == w[0] && s[1] == w[1]);
            }
            assert(s.skip(2) =~= Seq::<char>::empty());
            assert(parse_rel(Seq::<char>::empty(), sep) =~= Seq::<AbsComponent>::empty());
            assert(parse_spec(s, style) == seq![AbsComponent::Drive(s.take(2))] + parse_rel(
                s.skip(2),
                sep,
            ));
            assert(parse_spec(s, style).len() == 1);
        } else {
            let u = w + seq![sep];
            assert(s == u + join_rel(tail, sep));
            assert(u.len() == 3);
            assert(has_drive_prefix(s, style)) by {
                assert(s[0] == u[0] && u[0] == w[0]);
                assert(s[1] == u[1] && u[1] == w[1]);
                assert(s[2] == u[2] && u[2] == sep);
            }
            assert(s.skip(2) =~= seq![sep] + join_rel(tail, sep));
            assert((seq![sep] + join_rel(tail, sep))[0] == sep);
            assert((seq![sep] + join_rel(tail, sep)).skip(1) =~= join_rel(tail, sep));
            lemma_join_roundtrip(tail, sep);
            assert(parse_rel(s.skip(2), sep) == parse_rel(join_rel(tail, sep), sep));
            assert(parse_spec(s, style) == seq![AbsComponent::Drive(s.take(2))] + tail);
            assert(parse_spec(s, style).len() == cs.len());
        }
    }
}

/// Whenever at least `n` components exist, trimming is present, keeps exactly
/// the last `n` components, and decomposing the rendering of the result
/// yields exactly `n` components again.
pub proof fn lemma_trim_present_count(cs: Seq<AbsComponent>, style: PathStyle, n: int)
    requires
        wf_comps(cs, style),
        0 <= n <= cs.len(),
    ensures
        trim_spec(cs, n) == Some(cs.subrange(cs.len() - n, cs.len() as int)),
        cs.subrange(cs.len() - n, cs.len() as int).len() == n,
        parse_spec(
            render_spec(cs.subrange(cs.len() - n, cs.len() as int), style),
            style,
        ).len() == n,
{
    let t = cs.subrange(cs.len() - n, cs.len() as int);
    lemma_wf_suffix(cs, style, cs.len() - n);
    lemma_render_count(t, style);
}

/// Whenever fewer than `n` components exist, trimming reports absence.
pub proof fn lemma_trim_absent(cs: Seq<AbsComponent>, n: int)
    requires
        n > cs.len(),
    ensures
        trim_spec(cs, n) is None,
{
}

/// Trimming a path to its full component count keeps every component, and
/// rendering the result decomposes back to exactly the original components.
pub proof fn lemma_full_trim_identity(cs: Seq<AbsComponent>, style: PathStyle)
    requires
        wf_comps(cs, style),
        head_ok(cs, style),
    ensures
        trim_spec(cs, cs.len() as int) == Some(cs),
        parse_spec(render_spec(cs, style), style) == cs,
{
    assert(cs.subrange(0, cs.len() as int) =~= cs);
    lemma_render_roundtrip(cs, style);
}

/// The trailing components appear in the trimmed result in their original
/// relative order: the component at position `i` of the result is the
/// component at position `len - n + i` of the original.
pub proof fn lemma_trim_order(cs: Seq<AbsComponent>, n: int)
    requires
        0 <= n <= cs.len(),
    ensures
        trim_spec(cs, n) == Some(cs.subrange(cs.len() - n, cs.len() as int)),
        forall|i: int| 0 <= i < n ==> #[trigger] cs.subrange(cs.len() - n, cs.len() as int)[i]
            == cs[cs.len() - n + i],
{
}

} // verus!

