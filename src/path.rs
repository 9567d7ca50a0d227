//! Resolution of relative paths against a current directory.
use vstd::prelude::*;
use vstd::string::*;

use crate::dir_entry::push_char;
use crate::names::{components, path_components, views};

verus! {

/// `acc` after one more component: `.` changes nothing, `..` drops the
/// last component (if any), anything else is appended.
pub open spec fn push_component(acc: Seq<Seq<char>>, part: Seq<char>) -> Seq<Seq<char>> {
    if part == seq!['.'] {
        acc
    } else if part == seq!['.', '.'] {
        if acc.len() > 0 {
            acc.drop_last()
        } else {
            acc
        }
    } else {
        acc.push(part)
    }
}

/// `acc` after each of `parts` in turn.
pub open spec fn push_all(acc: Seq<Seq<char>>, parts: Seq<Seq<char>>) -> Seq<Seq<char>>
    decreases parts.len(),
{
    if parts.len() == 0 {
        acc
    } else {
        push_all(push_component(acc, parts[0]), parts.drop_first())
    }
}

/// The components joined, each after a slash.
pub open spec fn slash_join(cs: Seq<Seq<char>>) -> Seq<char>
    decreases cs.len(),
{
    if cs.len() == 0 {
        seq![]
    } else {
        slash_join(cs.drop_last()) + seq!['/'] + cs.last()
    }
}

/// The absolute path that `path` names from the directory `current`: an
/// absolute `path` ignores `current`; `.` and `..` are resolved; `/` when
/// nothing is left.
pub open spec fn resolve_path_spec(current: Seq<char>, path: Seq<char>) -> Seq<char> {
    let parts = if path.len() > 0 && path[0] == '/' {
        path_components(path)
    } else {
        path_components(current) + path_components(path)
    };
    let cs = push_all(seq![], parts);
    if cs.len() == 0 {
        seq!['/']
    } else {
        slash_join(cs)
    }
}

/// Applies [`push_component`] for each of `parts` to `acc`.
fn push_parts(acc: &mut Vec<String>, parts: Vec<String>)
    ensures
        views(final(acc)@) == push_all(views(old(acc)@), views(parts@)),
{
    let ghost pv = views(parts@);
    let ghost start = views(acc@);
    let mut i: usize = 0;
    assert(pv.skip(0) =~= pv);
    while i < parts.len()
        invariant
            i <= parts@.len(),
            pv == views(parts@),
            push_all(start, pv) == push_all(views(acc@), pv.skip(i as int)),
        decreases parts@.len() - i,
    {
        let part = parts[i].as_str();
        assert(pv.skip(i as int)[0] == part@);
        assert(pv.skip(i as int).drop_first() =~= pv.skip(i + 1));
        let n = part.unicode_len();
        let ghost before = views(acc@);
        if n == 1 && part.get_char(0) == '.' {
            assert(part@ =~= seq!['.']);
        } else if n == 2 && part.get_char(0) == '.' && part.get_char(1) == '.' {
            assert(part@ =~= seq!['.', '.']);
            if acc.len() > 0 {
                acc.pop();
                assert(views(acc@) =~= before.drop_last());
            }
        } else {
            assert(part@ != seq!['.']) by {
                if part@ == seq!['.'] {
                    assert(part@.len() == 1);
                }
            }
            assert(part@ != seq!['.', '.']) by {
                if part@ == seq!['.', '.'] {
                    assert(part@.len() == 2);
                }
            }
            acc.push(parts[i].clone());
            assert(views(acc@) =~= before.push(part@));
        }
        i += 1;
    }
}

/// Resolves `path` against the current directory `current` into an
/// absolute path.
pub fn resolve_path(current: &str, path: &str) -> (r: String)
    ensures
        r@ == resolve_path_spec(current@, path@),
{
    let mut acc: Vec<String> = Vec::new();
    let absolute = path.unicode_len() > 0 && path.get_char(0) == '/';
    assert(views(acc@) =~= Seq::<Seq<char>>::empty());
    if absolute {
        push_parts(&mut acc, components(path));
    } else {
        push_parts(&mut acc, components(current));
        push_parts(&mut acc, components(path));
        proof {
            lemma_push_all_append(seq![], path_components(current@), path_components(path@));
        }
    }
    let mut out = String::new();
    if acc.len() == 0 {
        push_char(&mut out, '/');
        assert(out@ =~= seq!['/']);
        return out;
    }
    let ghost cs = views(acc@);
    let mut i: usize = 0;
    assert(cs.subrange(0, 0) =~= Seq::<Seq<char>>::empty());
    while i < acc.len()
        invariant
            i <= acc@.len(),
            cs == views(acc@),
            out@ == slash_join(cs.subrange(0, i as int)),
        decreases acc@.len() - i,
    {
        push_char(&mut out, '/');
        out.append(acc[i].as_str());
        assert(cs.subrange(0, i + 1).drop_last() =~= cs.subrange(0, i as int));
        assert(out@ =~= slash_join(cs.subrange(0, i as int)) + seq!['/'] + cs[i as int]);
        i += 1;
    }
    assert(cs.subrange(0, i as int) =~= cs);
    out
}

proof fn lemma_push_all_append(acc: Seq<Seq<char>>, a: Seq<Seq<char>>, b: Seq<Seq<char>>)
    ensures
        push_all(acc, a + b) == push_all(push_all(acc, a), b),
    decreases a.len(),
{
    if a.len() == 0 {
        assert(a + b =~= b);
    } else {
        assert((a + b).drop_first() =~= a.drop_first() + b);
        lemma_push_all_append(push_component(acc, a[0]), a.drop_first(), b);
    }
}

} // verus!
