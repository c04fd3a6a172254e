//! Rendering of a `ParsedPath` back into text, proved to agree with the
//! model's `render_spec`.

use vstd::prelude::*;

use crate::model::AbsComponent;
use crate::model::PathStyle;
use crate::model::join_rel;
use crate::model::render_spec;
use crate::model::sep_char;
use crate::model::word;
use crate::parse::sep_char_of;
use crate::path::Component;
use crate::path::ParsedPath;

verus! {

/// Joining components one at a time from the left: appending one more
/// component appends a separator (after the first) and the component's word.
proof fn lemma_join_snoc(cs: Seq<AbsComponent>, c: AbsComponent, sep: char)
    ensures
        join_rel(cs.push(c), sep) == if cs.len() == 0 {
            word(c)
        } else {
            join_rel(cs, sep) + seq![sep] + word(c)
        },
    decreases cs.len(),
{
    let ext = cs.push(c);
    if cs.len() == 0 {
        assert(ext.len() == 1);
        assert(ext[0] == c);
    } else if cs.len() == 1 {
        assert(ext.skip(1) =~= seq![c]);
        assert(join_rel(seq![c], sep) == word(c));
        assert(join_rel(cs, sep) == word(cs[0]));
    } else {
        assert(ext.skip(1) =~= cs.skip(1).push(c));
        lemma_join_snoc(cs.skip(1), c, sep);
        assert(join_rel(ext, sep) == word(ext[0]) + seq![sep] + join_rel(ext.skip(1), sep));
        assert(word(cs[0]) + seq![sep] + (join_rel(cs.skip(1), sep) + seq![sep] + word(c))
            =~= (word(cs[0]) + seq![sep] + join_rel(cs.skip(1), sep)) + seq![sep] + word(c));
    }
}

/// The separator of a style as a one-character piece of text.
fn sep_str_of(style: PathStyle) -> (t: &'static str)
    ensures
        t@ == seq![sep_char(style)],
{
    proof {
        reveal_strlit("/");
        reveal_strlit("\\");
    }
    match style {
        PathStyle::Unix => "/",
        PathStyle::Windows => "\\",
    }
}

impl ParsedPath {
    /// Renders the components back into text: a leading root marker in its
    /// platform form (`/`, `\` or `C:\`), the remaining components joined by
    /// the style's separator. An empty path renders as empty text.
    pub fn render(&self) -> (r: String)
        ensures
            r@ == render_spec(self@, self.style()),
    {
        let ghost m = self@;
        let ghost sty = self.style();
        let ghost sep = sep_char(sty);
        let sep_str = sep_str_of(self.style_of());
        let mut r = String::new();
        let n = self.component_count();
        if n == 0 {
            proof {
                assert(r@ =~= render_spec(m, sty));
            }
            return r;
        }
        let mut start: usize = 0;
        match self.component_at(0) {
            Component::Root => {
                r.append(sep_str);
                start = 1;
                proof {
                    assert(r@ =~= seq![sep]);
                }
            },
            Component::Drive(p) => {
                r.append(p.as_str());
                r.append(sep_str);
                start = 1;
                proof {
                    assert(r@ =~= m[0]->Drive_0 + seq![sep]);
                }
            },
            _ => {
                proof {
                    assert(r@ =~= Seq::<char>::empty());
                }
            },
        }
        let ghost prefix = r@;
        let mut i: usize = start;
        proof {
            assert(m.subrange(start as int, start as int) =~= Seq::<AbsComponent>::empty());
            assert(r@ =~= prefix + join_rel(m.subrange(start as int, start as int), sep));
            assert(render_spec(m, sty) == prefix + join_rel(m.skip(start as int), sep)) by {
                if start == 0 {
                    assert(prefix =~= Seq::<char>::empty());
                    assert(m.skip(0) =~= m);
                    assert(prefix + join_rel(m, sep) =~= join_rel(m, sep));
                } else if m[0] is Root {
                    assert(prefix =~= seq![sep]);
                } else {
                    assert(prefix =~= m[0]->Drive_0 + seq![sep]);
                }
            }
        }
        while i < n
            invariant
                start <= i <= n,
                n == m.len(),
                m == self@,
                sty == self.style(),
                sep == sep_char(sty),
                sep_str@ == seq![sep],
                render_spec(m, sty) == prefix + join_rel(m.skip(start as int), sep),
                r@ == prefix + join_rel(m.subrange(start as int, i as int), sep),
            decreases n - i,
        {
            let ghost done = m.subrange(start as int, i as int);
            let ghost r0 = r@;
            if i > start {
                r.append(sep_str);
            }
            let ghost r1 = r@;
            match self.component_at(i) {
                Component::Root => {},
                Component::Drive(_) => {},
                Component::CurDir => {
                    proof {
                        reveal_strlit(".");
                    }
                    r.append(".");
                },
                Component::ParentDir => {
                    proof {
                        reveal_strlit("..");
                    }
                    r.append("..");
                },
                Component::Normal(w) => {
                    r.append(w.as_str());
                },
            }
            proof {
                let c = m[i as int];
                assert(r@ =~= r1 + word(c));
                lemma_join_snoc(done, c, sep);
                assert(m.subrange(start as int, i as int + 1) =~= done.push(c));
                if i == start {
                    assert(r1 == r0);
                    assert(r@ =~= prefix + join_rel(done.push(c), sep));
                } else {
                    assert(r1 == (prefix + join_rel(done, sep)) + seq![sep]);
                    assert(r@ == ((prefix + join_rel(done, sep)) + seq![sep]) + word(c));
                    assert(r@ =~= prefix + (join_rel(done, sep) + seq![sep] + word(c)));
                }
            }
            i += 1;
        }
        proof {
            assert(m.subrange(start as int, n as int) =~= m.skip(start as int));
        }
        r
    }
}

} // verus!
