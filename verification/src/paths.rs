//! Byte-level path model: absolute paths split into `/`-separated segments,
//! validation of search roots, joining, and rebasing a path under a new root.

use vstd::prelude::*;

verus! {

pub const SLASH: u8 = 47;

pub const DOT: u8 = 46;

pub const LOWER_D: u8 = 100;

/// Error returned when a path is not absolute or contains a parent-directory
/// (`..`) segment.
#[derive(Debug)]
pub struct InvalidPathError;

pub open spec fn slash_seq() -> Seq<u8> {
    seq![SLASH]
}

/// The current-directory segment `.`, dropped when rebasing.
pub open spec fn dot_seg() -> Seq<u8> {
    seq![DOT]
}

/// The parent-directory segment `..`, forbidden in search roots.
pub open spec fn parent_seg() -> Seq<u8> {
    seq![DOT, DOT]
}

/// The `.d` name suffix that marks a drop-in directory.
pub open spec fn dropin_ext() -> Seq<u8> {
    seq![DOT, LOWER_D]
}

/// The `/`-separated segments of a byte path, empty segments included, so
/// that `/etc` splits into `["", "etc"]` and `/a//b` into `["", "a", "", "b"]`.
pub open spec fn split_segs(p: Seq<u8>) -> Seq<Seq<u8>>
    decreases p.len(),
{
    if p.len() == 0 {
        seq![Seq::<u8>::empty()]
    } else {
        let rest = split_segs(p.drop_first());
        if p[0] == SLASH {
            seq![Seq::<u8>::empty()] + rest
        } else {
            seq![seq![p[0]] + rest[0]] + rest.drop_first()
        }
    }
}

/// A path begins at the filesystem root.
pub open spec fn is_abs(p: Seq<u8>) -> bool {
    p.len() > 0 && p[0] == SLASH
}

/// A valid search root: absolute and free of parent-directory segments.
pub open spec fn valid_root(p: Seq<u8>) -> bool {
    is_abs(p) && forall|i: int|
        0 <= i < split_segs(p).len() ==> split_segs(p)[i] != parent_seg()
}

/// Joining a base directory and a name with a single separator.
pub open spec fn join(base: Seq<u8>, name: Seq<u8>) -> Seq<u8> {
    base + slash_seq() + name
}

/// The drop-in directory for `stem` under `base`: `base/stem.d`.
pub open spec fn dropin_dir(base: Seq<u8>, stem: Seq<u8>) -> Seq<u8> {
    join(base, stem) + dropin_ext()
}

pub proof fn lemma_split_nonempty(p: Seq<u8>)
    ensures
        split_segs(p).len() >= 1,
    decreases p.len(),
{
    if p.len() > 0 {
        lemma_split_nonempty(p.drop_first());
    }
}

/// No segment of a split contains the separator.
pub proof fn lemma_split_no_slash(p: Seq<u8>)
    ensures
        forall|i: int, j: int|
            0 <= i < split_segs(p).len() && 0 <= j < split_segs(p)[i].len() ==> split_segs(p)[i][j]
                != SLASH,
    decreases p.len(),
{
    if p.len() > 0 {
        lemma_split_no_slash(p.drop_first());
        lemma_split_nonempty(p.drop_first());
        let rest = split_segs(p.drop_first());
        if p[0] == SLASH {
            assert forall|i: int, j: int|
                0 <= i < split_segs(p).len() && 0 <= j < split_segs(p)[i].len() implies split_segs(
                p,
            )[i][j] != SLASH by {
                if i > 0 {
                    assert(split_segs(p)[i] == rest[i - 1]);
                }
            }
        } else {
            assert forall|i: int, j: int|
                0 <= i < split_segs(p).len() && 0 <= j < split_segs(p)[i].len() implies split_segs(
                p,
            )[i][j] != SLASH by {
                if i == 0 {
                    assert(split_segs(p)[0] == seq![p[0]] + rest[0]);
                    if j > 0 {
                        assert(split_segs(p)[0][j] == rest[0][j - 1]);
                    }
                } else {
                    assert(split_segs(p)[i] == rest.drop_first()[i - 1]);
                    assert(rest.drop_first()[i - 1] == rest[i]);
                }
            }
        }
    }
}

/// Every byte of every segment occurs in the path itself.
pub proof fn lemma_split_bytes(p: Seq<u8>)
    ensures
        forall|i: int, j: int|
            0 <= i < split_segs(p).len() && 0 <= j < split_segs(p)[i].len() ==> p.contains(
                split_segs(p)[i][j],
            ),
    decreases p.len(),
{
    if p.len() > 0 {
        lemma_split_bytes(p.drop_first());
        lemma_split_nonempty(p.drop_first());
        let rest = split_segs(p.drop_first());
        assert forall|i: int, j: int|
            0 <= i < split_segs(p).len() && 0 <= j < split_segs(p)[i].len() implies p.contains(
            split_segs(p)[i][j],
        ) by {
            if p[0] == SLASH {
                if i > 0 {
                    assert(split_segs(p)[i] == rest[i - 1]);
                    assert(p.drop_first().contains(rest[i - 1][j]));
                    let k = choose|k: int|
                        0 <= k < p.drop_first().len() && p.drop_first()[k] == rest[i - 1][j];
                    assert(p[k + 1] == rest[i - 1][j]);
                }
            } else {
                if i == 0 {
                    assert(split_segs(p)[0] == seq![p[0]] + rest[0]);
                    if j == 0 {
                        assert(p[0] == split_segs(p)[0][0]);
                    } else {
                        assert(split_segs(p)[0][j] == rest[0][j - 1]);
                        assert(p.drop_first().contains(rest[0][j - 1]));
                        let k = choose|k: int|
                            0 <= k < p.drop_first().len() && p.drop_first()[k] == rest[0][j - 1];
                        assert(p[k + 1] == rest[0][j - 1]);
                    }
                } else {
                    assert(split_segs(p)[i] == rest.drop_first()[i - 1]);
                    assert(rest.drop_first()[i - 1] == rest[i]);
                    assert(p.drop_first().contains(rest[i][j]));
                    let k = choose|k: int|
                        0 <= k < p.drop_first().len() && p.drop_first()[k] == rest[i][j];
                    assert(p[k + 1] == rest[i][j]);
                }
            }
        }
    }
}

/// An absolute path with no dot anywhere is a valid search root.
pub proof fn lemma_no_dot_valid(p: Seq<u8>)
    requires
        is_abs(p),
        forall|k: int| 0 <= k < p.len() ==> p[k] != DOT,
    ensures
        valid_root(p),
{
    lemma_split_bytes(p);
    assert forall|i: int| 0 <= i < split_segs(p).len() implies split_segs(p)[i] != parent_seg() by {
        if split_segs(p)[i] == parent_seg() {
            assert(split_segs(p)[i][0] == DOT);
            assert(p.contains(DOT));
        }
    }
}

/// Appending a separator and a slash-free segment appends one segment to the
/// split.
pub proof fn lemma_split_append_seg(a: Seq<u8>, s: Seq<u8>)
    requires
        forall|j: int| 0 <= j < s.len() ==> s[j] != SLASH,
    ensures
        split_segs(a + slash_seq() + s) == split_segs(a).push(s),
    decreases a.len(),
{
    let p = a + slash_seq() + s;
    if a.len() == 0 {
        assert(p[0] == SLASH);
        assert(p.drop_first() =~= s);
        lemma_split_slashless(s);
        assert(split_segs(p) =~~= split_segs(a).push(s));
    } else {
        lemma_split_append_seg(a.drop_first(), s);
        assert(p.drop_first() =~= a.drop_first() + slash_seq() + s);
        lemma_split_nonempty(a.drop_first());
        let sad = split_segs(a.drop_first());
        let rest = split_segs(p.drop_first());
        assert(rest == sad.push(s));
        if p[0] == SLASH {
            assert(a[0] == SLASH);
            assert(split_segs(p) == seq![Seq::<u8>::empty()] + rest);
            assert(split_segs(a) == seq![Seq::<u8>::empty()] + sad);
            assert(split_segs(p) =~~= split_segs(a).push(s));
        } else {
            assert(a[0] == p[0]);
            assert(rest[0] == sad[0]);
            assert(rest.drop_first() =~~= sad.drop_first().push(s));
            assert(split_segs(p) == seq![seq![p[0]] + rest[0]] + rest.drop_first());
            assert(split_segs(a) == seq![seq![a[0]] + sad[0]] + sad.drop_first());
            assert(split_segs(p) =~~= split_segs(a).push(s));
        }
    }
}

/// A slash-free byte string splits into itself alone.
pub proof fn lemma_split_slashless(s: Seq<u8>)
    requires
        forall|j: int| 0 <= j < s.len() ==> s[j] != SLASH,
    ensures
        split_segs(s) == seq![s],
    decreases s.len(),
{
    if s.len() == 0 {
        assert(split_segs(s) =~~= seq![s]);
    } else {
        lemma_split_slashless(s.drop_first());
        assert(s[0] != SLASH);
        let rest = split_segs(s.drop_first());
        assert(rest == seq![s.drop_first()]);
        assert(seq![s[0]] + rest[0] =~= s);
        assert(split_segs(s) =~~= seq![s]);
    }
}

/// A valid root stays valid when a slash-free segment other than `..` is
/// appended below it.
pub proof fn lemma_join_keeps_valid(a: Seq<u8>, s: Seq<u8>)
    requires
        valid_root(a),
        forall|j: int| 0 <= j < s.len() ==> s[j] != SLASH,
        s != parent_seg(),
    ensures
        valid_root(join(a, s)),
{
    lemma_split_append_seg(a, s);
    let p = join(a, s);
    assert(p[0] == a[0]);
    assert forall|i: int| 0 <= i < split_segs(p).len() implies split_segs(p)[i] != parent_seg() by {
        if i < split_segs(a).len() {
            assert(split_segs(p)[i] == split_segs(a)[i]);
        } else {
            assert(split_segs(p)[i] == s);
        }
    }
}

/// The views of a sequence of byte vectors.
pub open spec fn seg_views(v: Seq<Vec<u8>>) -> Seq<Seq<u8>> {
    Seq::new(v.len(), |i: int| v[i]@)
}

/// Splits a path into its `/`-separated segments.
fn split_path(p: &Vec<u8>) -> (r: Vec<Vec<u8>>)
    ensures
        seg_views(r@) == split_segs(p@),
{
    let mut result: Vec<Vec<u8>> = Vec::new();
    let mut cur: Vec<u8> = Vec::new();
    let mut i: usize = 0;
    proof {
        lemma_split_nonempty(p@);
        assert(p@.skip(0) =~= p@);
    }
    while i < p.len()
        invariant
            i <= p@.len(),
            split_segs(p@) == seg_views(result@) + seq![cur@ + split_segs(p@.skip(i as int))[0]]
                + split_segs(p@.skip(i as int)).drop_first(),
        decreases p@.len() - i,
    {
        let b = p[i];
        proof {
            assert(p@.skip(i as int)[0] == p@[i as int]);
            assert(p@.skip(i as int).drop_first() =~= p@.skip(i + 1));
            lemma_split_nonempty(p@.skip(i + 1));
        }
        if b == SLASH {
            let ghost old_result = result@;
            let ghost old_cur = cur@;
            result.push(cur);
            cur = Vec::new();
            proof {
                assert(seg_views(result@) =~= seg_views(old_result).push(old_cur));
                assert(old_cur + split_segs(p@.skip(i as int))[0] =~= old_cur);
                assert(cur@ + split_segs(p@.skip(i + 1))[0] =~= split_segs(p@.skip(i + 1))[0]);
                assert(split_segs(p@) =~= seg_views(result@) + seq![
                    cur@ + split_segs(p@.skip(i + 1))[0],
                ] + split_segs(p@.skip(i + 1)).drop_first());
            }
        } else {
            let ghost old_cur = cur@;
            cur.push(b);
            proof {
                let rest = split_segs(p@.skip(i + 1));
                assert(split_segs(p@.skip(i as int)) == seq![seq![p@[i as int]] + rest[0]]
                    + rest.drop_first());
                assert(old_cur + split_segs(p@.skip(i as int))[0] =~= cur@ + rest[0]);
                assert(split_segs(p@.skip(i as int)).drop_first() =~= rest.drop_first());
                assert(split_segs(p@) =~= seg_views(result@) + seq![cur@ + rest[0]]
                    + rest.drop_first());
            }
        }
        i += 1;
    }
    proof {
        assert(p@.skip(p@.len() as int) =~= Seq::<u8>::empty());
        assert(cur@ + split_segs(p@.skip(p@.len() as int))[0] =~= cur@);
    }
    let ghost old_result = result@;
    let ghost last_cur = cur@;
    result.push(cur);
    proof {
        assert(seg_views(result@) =~= seg_views(old_result).push(last_cur));
        assert(seg_views(result@) =~~= split_segs(p@));
    }
    result
}

/// Checks that `path` is absolute and contains no parent-directory segment;
/// returns `InvalidPathError` otherwise.
pub fn validate_path(path: &Vec<u8>) -> (r: Result<(), InvalidPathError>)
    ensures
        r.is_ok() <==> valid_root(path@),
{
    if path.len() == 0 || path[0] != SLASH {
        return Err(InvalidPathError);
    }
    let segs = split_path(path);
    let ghost model = split_segs(path@);
    let mut i: usize = 0;
    while i < segs.len()
        invariant
            seg_views(segs@) == model,
            model == split_segs(path@),
            is_abs(path@),
            i <= segs@.len(),
            forall|k: int| 0 <= k < i ==> model[k] != parent_seg(),
        decreases segs@.len() - i,
    {
        let s: &Vec<u8> = &segs[i];
        proof {
            assert(s@ == model[i as int]);
        }
        if s.len() == 2 && s[0] == DOT && s[1] == DOT {
            proof {
                assert(model[i as int] =~= parent_seg());
            }
            return Err(InvalidPathError);
        }
        proof {
            if s@ == parent_seg() {
                assert(s@.len() == 2 && s@[0] == DOT && s@[1] == DOT);
            }
        }
        i += 1;
    }
    Ok(())
}

/// Joins a base directory and a name with a single separator.
pub fn path_join(base: &Vec<u8>, name: &Vec<u8>) -> (r: Vec<u8>)
    ensures
        r@ == join(base@, name@),
{
    let mut r = base.clone();
    r.push(SLASH);
    let mut j: usize = 0;
    proof {
        assert(r@ =~= base@ + slash_seq() + name@.take(0));
    }
    while j < name.len()
        invariant
            j <= name@.len(),
            r@ == base@ + slash_seq() + name@.take(j as int),
        decreases name@.len() - j,
    {
        r.push(name[j]);
        proof {
            assert(r@ =~= base@ + slash_seq() + name@.take(j + 1));
        }
        j += 1;
    }
    proof {
        assert(name@.take(name@.len() as int) =~= name@);
    }
    r
}

/// Builds `base/stem.d`, the drop-in directory path for `stem` under `base`.
pub fn dropin_dir_path(base: &Vec<u8>, stem: &Vec<u8>) -> (r: Vec<u8>)
    ensures
        r@ == dropin_dir(base@, stem@),
{
    let mut r = path_join(base, stem);
    r.push(DOT);
    r.push(LOWER_D);
    proof {
        assert(r@ =~= dropin_dir(base@, stem@));
    }
    r
}

/// A segment kept by rebasing: non-empty and not the current-directory dot.
pub open spec fn seg_keep(s: Seq<u8>) -> bool {
    s.len() > 0 && s != dot_seg()
}

/// The segments of a split that rebasing keeps, in order.
pub open spec fn keep_segs(segs: Seq<Seq<u8>>) -> Seq<Seq<u8>>
    decreases segs.len(),
{
    if segs.len() == 0 {
        segs
    } else {
        let rest = keep_segs(segs.drop_last());
        if seg_keep(segs.last()) {
            rest.push(segs.last())
        } else {
            rest
        }
    }
}

/// A base directory extended by a sequence of segments, one separator each.
pub open spec fn cat_segs(base: Seq<u8>, segs: Seq<Seq<u8>>) -> Seq<u8>
    decreases segs.len(),
{
    if segs.len() == 0 {
        base
    } else {
        join(cat_segs(base, segs.drop_last()), segs.last())
    }
}

/// The path `dir` rebased under `root`: the root marker and any
/// current-directory segments of `dir` are dropped, its remaining segments are
/// rejoined below `root`.
pub open spec fn rebase_under(root: Seq<u8>, dir: Seq<u8>) -> Seq<u8> {
    cat_segs(root, keep_segs(split_segs(dir)))
}

/// Rebases `dir` under `root`, as rebasing a whole search-root list does for
/// each of its entries.
pub fn rebase_path(root: &Vec<u8>, dir: &Vec<u8>) -> (r: Vec<u8>)
    requires
        valid_root(root@),
        valid_root(dir@),
    ensures
        r@ == rebase_under(root@, dir@),
        valid_root(r@),
{
    let segs = split_path(dir);
    let ghost model = split_segs(dir@);
    let mut acc = root.clone();
    let mut i: usize = 0;
    proof {
        lemma_split_no_slash(dir@);
        assert(model.take(0) =~= Seq::<Seq<u8>>::empty());
    }
    while i < segs.len()
        invariant
            seg_views(segs@) == model,
            model == split_segs(dir@),
            valid_root(root@),
            valid_root(dir@),
            i <= segs@.len(),
            acc@ == cat_segs(root@, keep_segs(model.take(i as int))),
            valid_root(acc@),
            forall|a: int, b: int|
                0 <= a < model.len() && 0 <= b < model[a].len() ==> model[a][b] != SLASH,
        decreases segs@.len() - i,
    {
        let s: &Vec<u8> = &segs[i];
        proof {
            assert(s@ == model[i as int]);
            assert(model.take(i + 1).drop_last() =~= model.take(i as int));
            assert(model.take(i + 1).last() == model[i as int]);
        }
        let keep = s.len() > 0 && !(s.len() == 1 && s[0] == DOT);
        proof {
            if s@.len() == 1 && s@[0] == DOT {
                assert(s@ =~= dot_seg());
            }
            if s@ == dot_seg() {
                assert(s@.len() == 1 && s@[0] == DOT);
            }
            assert(keep == seg_keep(s@));
        }
        if keep {
            let ghost old_acc = acc@;
            proof {
                assert(keep_segs(model.take(i + 1)) == keep_segs(model.take(i as int)).push(s@));
                assert(cat_segs(root@, keep_segs(model.take(i + 1))) == join(old_acc, s@)) by {
                    let ks = keep_segs(model.take(i as int)).push(s@);
                    assert(ks.drop_last() =~= keep_segs(model.take(i as int)));
                    assert(ks.last() == s@);
                };
                lemma_join_keeps_valid(old_acc, s@);
            }
            acc = path_join(&acc, s);
        } else {
            proof {
                assert(keep_segs(model.take(i + 1)) == keep_segs(model.take(i as int)));
            }
        }
        i += 1;
    }
    proof {
        assert(model.take(model.len() as int) =~= model);
    }
    acc
}

} // verus!
