//! What holds of paths.
use crate::interface::cli::joined_path;
use crate::utils::{
    absolute, components, is_dot, is_dot_dot, is_named, named, normalized, path_starts_with,
    same_path, slashed, split_slash,
};
use vstd::prelude::*;
use vstd::string::*;

verus! {

/// A name that a path can hold between slashes.
pub open spec fn plain(c: Seq<char>) -> bool {
    &&& is_named(c)
    &&& forall|i: int| 0 <= i < c.len() ==> #[trigger] c[i] != '/'
}

/// Names that a path can hold between slashes.
pub open spec fn all_plain(parts: Seq<Seq<char>>) -> bool {
    forall|i: int| 0 <= i < parts.len() ==> plain(#[trigger] parts[i])
}

/// No part stands for the parent.
pub open spec fn no_parents(parts: Seq<Seq<char>>) -> bool {
    forall|i: int| 0 <= i < parts.len() ==> !is_dot_dot(#[trigger] parts[i])
}

/// The pieces between slashes hold no slash.
proof fn lemma_split(s: Seq<char>)
    ensures
        split_slash(s).len() > 0,
        forall|i: int, j: int|
            0 <= i < split_slash(s).len() && 0 <= j < split_slash(s)[i].len()
                ==> #[trigger] split_slash(s)[i][j] != '/',
    decreases s.len(),
{
    if s.len() > 0 {
        lemma_split(s.drop_last());
    }
}

/// The names among pieces are plain if the pieces hold no slash.
proof fn lemma_named(p: Seq<Seq<char>>)
    requires
        forall|i: int, j: int|
            0 <= i < p.len() && 0 <= j < p[i].len() ==> #[trigger] p[i][j] != '/',
    ensures
        all_plain(named(p)),
    decreases p.len(),
{
    if p.len() > 0 {
        let d = p.drop_last();
        assert forall|i: int, j: int| 0 <= i < d.len() && 0 <= j < d[i].len() implies #[trigger] d[i][j]
            != '/' by {
            assert(p[i][j] != '/');
        }
        lemma_named(d);
        if is_named(p.last()) {
            let c = p.last();
            assert forall|i: int| 0 <= i < c.len() implies #[trigger] c[i] != '/' by {
                assert(p[p.len() - 1][i] != '/');
            }
            assert(plain(c));
        }
    }
}

/// The components of a path are plain.
pub proof fn components_are_plain(path: Seq<char>)
    ensures
        all_plain(components(path)),
{
    lemma_split(path);
    lemma_named(split_slash(path));
}

/// Normalizing keeps parts plain and leaves none that stands for the parent. It changes nothing
/// where there is none.
proof fn lemma_normalized(parts: Seq<Seq<char>>)
    requires
        all_plain(parts),
    ensures
        all_plain(normalized(parts)),
        no_parents(normalized(parts)),
        no_parents(parts) ==> normalized(parts) == parts,
    decreases parts.len(),
{
    if parts.len() > 0 {
        let d = parts.drop_last();
        assert forall|i: int| 0 <= i < d.len() implies plain(#[trigger] d[i]) by {
            assert(plain(parts[i]));
        }
        lemma_normalized(d);
        assert(plain(parts[parts.len() - 1]));
        if no_parents(parts) {
            assert forall|i: int| 0 <= i < d.len() implies !is_dot_dot(#[trigger] d[i]) by {
                assert(!is_dot_dot(parts[i]));
            }
            assert(!is_dot_dot(parts[parts.len() - 1]));
            assert(d.push(parts.last()) =~= parts);
        }
    } else {
        assert(normalized(parts) =~= parts);
    }
}

/// A slash and a name behind a path add one piece.
proof fn lemma_split_push(s: Seq<char>, c: Seq<char>)
    requires
        forall|i: int| 0 <= i < c.len() ==> #[trigger] c[i] != '/',
    ensures
        split_slash(s.push('/') + c) == split_slash(s).push(c),
    decreases c.len(),
{
    let t = s.push('/') + c;
    if c.len() == 0 {
        assert(t.drop_last() =~= s);
        assert(c =~= Seq::empty());
    } else {
        let d = c.drop_last();
        assert forall|i: int| 0 <= i < d.len() implies #[trigger] d[i] != '/' by {
            assert(c[i] != '/');
        }
        lemma_split_push(s, d);
        assert(t.drop_last() =~= s.push('/') + d);
        assert(t.last() == c[c.len() - 1]);
        assert(c[c.len() - 1] != '/');
        let before = split_slash(s).push(d);
        assert(d.push(c.last()) =~= c);
        assert(before.update(before.len() - 1, before.last().push(t.last())) =~= split_slash(
            s,
        ).push(c));
    }
}

/// The components of plain parts with slashes before them are the parts.
proof fn lemma_slashed(parts: Seq<Seq<char>>)
    requires
        all_plain(parts),
    ensures
        components(slashed(parts)) == parts,
    decreases parts.len(),
{
    if parts.len() > 0 {
        let d = parts.drop_last();
        assert forall|i: int| 0 <= i < d.len() implies plain(#[trigger] d[i]) by {
            assert(plain(parts[i]));
        }
        lemma_slashed(d);
        assert(plain(parts[parts.len() - 1]));
        lemma_split_push(slashed(d), parts.last());
        let p = split_slash(slashed(d)).push(parts.last());
        assert(p.drop_last() =~= split_slash(slashed(d)));
        assert(d.push(parts.last()) =~= parts);
    } else {
        assert(slashed(parts) =~= Seq::empty());
        reveal_with_fuel(named, 2);
        assert(components(slashed(parts)) =~= parts);
    }
}

/// The components of an absolute path are the normalized parts that it goes through.
pub proof fn absolute_path_has_normalized_components(parts: Seq<Seq<char>>)
    requires
        all_plain(parts),
    ensures
        components(absolute(parts)) == normalized(parts),
{
    lemma_normalized(parts);
    let n = normalized(parts);
    if n.len() == 0 {
        let s = seq!['/'];
        assert(s.drop_last() =~= Seq::empty());
        reveal_with_fuel(split_slash, 2);
        reveal_with_fuel(named, 3);
        assert(split_slash(s) =~= seq![Seq::<char>::empty(), Seq::<char>::empty()]);
        assert(split_slash(s).drop_last() =~= seq![Seq::<char>::empty()]);
        assert(seq![Seq::<char>::empty()].drop_last() =~= Seq::empty());
        assert(components(s) =~= n);
    } else {
        lemma_slashed(n);
    }
}

/// Normalizing a path twice gives what normalizing it once gives.
pub proof fn normalizing_is_idempotent(path: Seq<char>)
    ensures
        absolute(components(absolute(components(path)))) == absolute(components(path)),
{
    let parts = components(path);
    components_are_plain(path);
    absolute_path_has_normalized_components(parts);
    lemma_normalized(parts);
    lemma_normalized(normalized(parts));
}

/// A path that never goes back to a parent keeps its components when it is normalized.
pub proof fn normalizing_keeps_components(path: Seq<char>)
    requires
        no_parents(components(path)),
    ensures
        components(absolute(components(path))) == components(path),
{
    components_are_plain(path);
    absolute_path_has_normalized_components(components(path));
    lemma_normalized(components(path));
}

/// A piece without a slash is all of its pieces.
proof fn lemma_split_alone(c: Seq<char>)
    requires
        forall|i: int| 0 <= i < c.len() ==> #[trigger] c[i] != '/',
    ensures
        split_slash(c) == seq![c],
    decreases c.len(),
{
    if c.len() > 0 {
        let d = c.drop_last();
        assert forall|i: int| 0 <= i < d.len() implies #[trigger] d[i] != '/' by {
            assert(c[i] != '/');
        }
        lemma_split_alone(d);
        assert(c[c.len() - 1] != '/');
        assert(d.push(c.last()) =~= c);
        assert(seq![d].update(0, c) =~= seq![c]);
    } else {
        assert(c =~= Seq::empty());
    }
}

/// The path of an entry goes through the path of its directory and then to the name of the entry,
/// however the path of the directory is written.
pub proof fn joining_adds_a_component(path: Seq<char>, name: Seq<char>)
    requires
        plain(name),
    ensures
        components(joined_path(path, name)) == components(path).push(name),
{
    assert(name.len() > 0);
    assert(name[0] != '/');
    if path.len() == 0 {
        assert(path =~= Seq::empty());
        assert(path + name =~= name);
        lemma_split_alone(name);
        reveal_with_fuel(named, 3);
        assert(seq![name].drop_last() =~= Seq::empty());
        assert(split_slash(path) =~= seq![Seq::<char>::empty()]);
        assert(seq![Seq::<char>::empty()].drop_last() =~= Seq::empty());
        assert(components(path) =~= Seq::empty());
        assert(components(name) =~= seq![name]);
        assert(components(path).push(name) =~= seq![name]);
    } else if path.last() == '/' {
        let s = path.drop_last();
        assert(s.push('/') =~= path);
        lemma_split_push(s, name);
        let none = Seq::<char>::empty();
        lemma_split_push(s, none);
        assert(s.push('/') + none =~= path);
        assert(split_slash(s).push(none).drop_last() =~= split_slash(s));
        assert(split_slash(s).push(name).drop_last() =~= split_slash(s));
    } else {
        reveal_strlit("/");
        assert(path + "/"@ + name =~= path.push('/') + name);
        lemma_split_push(path, name);
        assert(split_slash(path).push(name).drop_last() =~= split_slash(path));
    }
}

/// A step to the parent undoes the component before it. Above the root there is only the root.
pub proof fn parent_step_undoes_a_component(parts: Seq<Seq<char>>, name: Seq<char>)
    requires
        plain(name),
        !is_dot_dot(name),
    ensures
        normalized(parts.push(name).push(seq!['.', '.'])) == normalized(parts),
        normalized(parts.push(name)) == normalized(parts).push(name),
        normalized(parts).len() == 0 ==> normalized(parts.push(seq!['.', '.'])).len() == 0,
{
    let up = seq!['.', '.'];
    assert(!is_dot(name));
    assert(parts.push(name).drop_last() =~= parts);
    assert(parts.push(name).push(up).drop_last() =~= parts.push(name));
    assert(parts.push(up).drop_last() =~= parts);
    assert(parts.push(name).last() == name);
    assert(normalized(parts.push(name)) == normalized(parts).push(name));
    assert(parts.push(name).push(up).last() == up);
    assert(is_dot_dot(up) && !is_dot(up));
    assert(normalized(parts).push(name).drop_last() =~= normalized(parts));
}

/// A slash at the end of a path does not count, nor do several in a row.
pub proof fn further_slashes_do_not_count(path: Seq<char>)
    ensures
        components(path.push('/')) == components(path),
        components(path.push('/').push('/')) == components(path),
{
    lemma_slash_behind(path);
    lemma_slash_behind(path.push('/'));
}

proof fn lemma_slash_behind(path: Seq<char>)
    ensures
        components(path.push('/')) == components(path),
{
    let s = path.push('/');
    assert(s.drop_last() =~= path);
    let pieces = split_slash(path);
    assert(split_slash(s) == pieces.push(Seq::<char>::empty()));
    assert(split_slash(s).drop_last() =~= pieces);
}

/// An absolute path starts with another if it goes through all components of the other first. Two
/// absolute paths are the same if they go through the same components.
pub proof fn absolute_paths_compare_by_components(a: Seq<char>, b: Seq<char>)
    requires
        a.len() > 0,
        b.len() > 0,
        a[0] == '/',
        b[0] == '/',
    ensures
        path_starts_with(a, b) <==> components(b).is_prefix_of(components(a)),
        same_path(a, b) <==> components(a) == components(b),
{
    let root = seq![seq!['/']];
    let ca = components(a);
    let cb = components(b);
    let fa = root + ca;
    let fb = root + cb;
    if cb.is_prefix_of(ca) {
        assert(fb =~= fa.subrange(0, fb.len() as int)) by {
            assert forall|i: int| 0 <= i < fb.len() implies fb[i] == fa[i] by {
                if i > 0 {
                    assert(cb[i - 1] == ca.subrange(0, cb.len() as int)[i - 1]);
                }
            }
        }
    }
    if fb.is_prefix_of(fa) {
        assert(cb =~= ca.subrange(0, cb.len() as int)) by {
            assert forall|i: int| 0 <= i < cb.len() implies cb[i] == ca[i] by {
                assert(fb[i + 1] == fa.subrange(0, fb.len() as int)[i + 1]);
            }
        }
    }
    if fa == fb {
        assert(ca =~= fa.subrange(1, fa.len() as int));
        assert(cb =~= fb.subrange(1, fb.len() as int));
    }
}

} // verus!
