//! Shortening a Unix path for display: middle components give way to an
//! ellipsis until the path fits in a given width.
use vstd::prelude::*;

verus! {

/// The byte `/`.
pub open spec fn slash() -> u8 {
    47u8
}

/// The byte `.`.
pub open spec fn dot() -> u8 {
    46u8
}

/// The bytes of the ellipsis `…` in UTF-8.
pub open spec fn ellipsis() -> Seq<u8> {
    seq![0xe2u8, 0x80u8, 0xa6u8]
}

/// The byte strings of a list of byte vectors.
pub open spec fn views(v: Seq<Vec<u8>>) -> Seq<Seq<u8>> {
    v.map_values(|x: Vec<u8>| x@)
}

/// The parts of `p` between slashes, in order, empty parts included: a path
/// with `k` slashes has `k + 1` parts.
pub open spec fn split_slash(p: Seq<u8>) -> Seq<Seq<u8>>
    decreases p.len(),
{
    if p.len() == 0 {
        seq![Seq::empty()]
    } else {
        let init = split_slash(p.drop_last());
        if p.last() == slash() {
            init.push(Seq::empty())
        } else {
            init.update(init.len() - 1, init.last().push(p.last()))
        }
    }
}

/// Whether a part between slashes names a component: empty parts and `.`
/// parts do not.
pub open spec fn names_component(part: Seq<u8>) -> bool {
    part.len() > 0 && part != seq![dot()]
}

/// The components of a Unix path, as `std::path::Path::components` gives
/// them: the root `/` if the path starts with a slash, else `.` if the path
/// starts with a `.` part, then every part that names a component.
pub open spec fn spec_components(p: Seq<u8>) -> Seq<Seq<u8>> {
    let has_root = p.len() > 0 && p[0] == slash();
    let cur_dir = !has_root && p.len() > 0 && p[0] == dot() && (p.len() == 1 || p[1] == slash());
    let lead: Seq<Seq<u8>> = if has_root {
        seq![seq![slash()]]
    } else if cur_dir {
        seq![seq![dot()]]
    } else {
        Seq::empty()
    };
    lead + split_slash(p).filter(|part: Seq<u8>| names_component(part))
}

proof fn lemma_split_len(p: Seq<u8>)
    ensures
        split_slash(p).len() >= 1,
    decreases p.len(),
{
    if p.len() > 0 {
        lemma_split_len(p.drop_last());
    }
}

proof fn lemma_components_nonempty(p: Seq<u8>)
    ensures
        forall|i: int| 0 <= i < spec_components(p).len() ==> #[trigger] spec_components(p)[i].len() > 0,
{
    let pred = |part: Seq<u8>| names_component(part);
    let parts = split_slash(p);
    let has_root = p.len() > 0 && p[0] == slash();
    let cur_dir = !has_root && p.len() > 0 && p[0] == dot() && (p.len() == 1 || p[1] == slash());
    let lead: Seq<Seq<u8>> = if has_root {
        seq![seq![slash()]]
    } else if cur_dir {
        seq![seq![dot()]]
    } else {
        Seq::empty()
    };
    assert forall|i: int| 0 <= i < spec_components(p).len() implies #[trigger] spec_components(
        p,
    )[i].len() > 0 by {
        if i >= lead.len() {
            parts.lemma_filter_pred(pred, i - lead.len());
        }
    }
}

/// `a - b`, or zero when `b` is larger.
pub open spec fn minus(a: int, b: int) -> int {
    if a >= b {
        a - b
    } else {
        0
    }
}

/// The components left after shrinking: while the path, `total` bytes long
/// by the count kept, is wider than `width` and has more than one component,
/// the middle component (the earlier one of two) is removed, unless it is
/// the root.  The first removal leaves an ellipsis of one counted byte in
/// its place; later ones also remove a slash.
pub open spec fn spec_shrink(segs: Seq<Seq<u8>>, total: int, width: int, first: bool) -> Seq<Seq<u8>>
    decreases segs.len(),
{
    if total > width && segs.len() > 1 {
        let mid = (segs.len() - 1) / 2;
        if segs[mid] == seq![slash()] {
            segs
        } else {
            let rest = minus(total, segs[mid].len() as int);
            let next = if first {
                rest + 1
            } else {
                minus(rest, 1)
            };
            spec_shrink(segs.remove(mid), next, width, false)
        }
    } else {
        segs
    }
}

/// The counted width of the path when shrinking stops (see `spec_shrink`):
/// the width of a component taken out is no longer counted, the first
/// ellipsis counts one, and each later removal also takes out a slash.
pub open spec fn spec_shrink_width(segs: Seq<Seq<u8>>, total: int, width: int, first: bool) -> int
    decreases segs.len(),
{
    if total > width && segs.len() > 1 {
        let mid = (segs.len() - 1) / 2;
        if segs[mid] == seq![slash()] {
            total
        } else {
            let rest = minus(total, segs[mid].len() as int);
            let next = if first {
                rest + 1
            } else {
                minus(rest, 1)
            };
            spec_shrink_width(segs.remove(mid), next, width, false)
        }
    } else {
        total
    }
}

/// Shrinking stops only when the counted width fits in `width`, a single
/// component is left, or the component in the middle is the root.
pub proof fn lemma_shrink_stops(segs: Seq<Seq<u8>>, total: int, width: int, first: bool)
    ensures
        ({
            let r = spec_shrink(segs, total, width, first);
            let w = spec_shrink_width(segs, total, width, first);
            w <= width || r.len() <= 1 || r[(r.len() - 1) / 2] == seq![slash()]
        }),
    decreases segs.len(),
{
    if total > width && segs.len() > 1 {
        let mid = (segs.len() - 1) / 2;
        if segs[mid] != seq![slash()] {
            let rest = minus(total, segs[mid].len() as int);
            let next = if first {
                rest + 1
            } else {
                minus(rest, 1)
            };
            lemma_shrink_stops(segs.remove(mid), next, width, false);
        }
    }
}

/// A path wider than `width` with more than one component is shortened
/// to the components left by shrinking, with an ellipsis in their middle;
/// and shrinking stopped only because the counted width fits in `width`,
/// a single component is left, or the component in the middle is the root.
pub proof fn lemma_truncate_stops(p: Seq<u8>, width: int)
    requires
        p.len() > width,
        spec_components(p).len() > 1,
    ensures
        ({
            let comps = spec_components(p);
            let kept = spec_shrink(comps, p.len() as int, width, true);
            &&& spec_truncate_path(p, width) == spec_join(kept.insert(kept.len() as int / 2, ellipsis()))
            &&& spec_shrink_width(comps, p.len() as int, width, true) <= width || kept.len() <= 1
                || kept[(kept.len() - 1) / 2] == seq![slash()]
        }),
{
    lemma_shrink_stops(spec_components(p), p.len() as int, width, true);
}

/// The path made of `segs`, as `std::path::PathBuf::push` builds it: a root
/// replaces what came before, and other components are joined by slashes.
pub open spec fn spec_join(segs: Seq<Seq<u8>>) -> Seq<u8>
    decreases segs.len(),
{
    if segs.len() == 0 {
        Seq::empty()
    } else {
        let init = spec_join(segs.drop_last());
        let c = segs.last();
        if c.len() > 0 && c[0] == slash() {
            c
        } else if init.len() == 0 {
            c
        } else if init.last() == slash() {
            init + c
        } else {
            init + seq![slash()] + c
        }
    }
}

/// `p` shortened to fit in `width` bytes where it can be: a path that fits,
/// or has a single component, is kept as it is; otherwise middle components
/// are removed and an ellipsis is put in the middle of those left.
pub open spec fn spec_truncate_path(p: Seq<u8>, width: int) -> Seq<u8> {
    let comps = spec_components(p);
    if p.len() <= width || comps.len() <= 1 {
        p
    } else {
        let kept = spec_shrink(comps, p.len() as int, width, true);
        spec_join(kept.insert(kept.len() as int / 2, ellipsis()))
    }
}

/// Whether no byte of `s` is a slash.
pub open spec fn no_slash(s: Seq<u8>) -> bool {
    forall|j: int| 0 <= j < s.len() ==> s[j] != slash()
}

/// Only the first of `segs` may hold a slash, and then it is the root.
pub open spec fn slashes_only_at_root(segs: Seq<Seq<u8>>) -> bool {
    &&& forall|i: int| 0 < i < segs.len() ==> #[trigger] no_slash(segs[i])
    &&& segs.len() > 0 ==> (segs[0] == seq![slash()] || no_slash(segs[0]))
}

/// Whether every one of `segs` holds at least one byte.
pub open spec fn all_nonempty(segs: Seq<Seq<u8>>) -> bool {
    forall|i: int| 0 <= i < segs.len() ==> #[trigger] segs[i].len() > 0
}

/// Whether `s` ends with `t`.
pub open spec fn ends_with(s: Seq<u8>, t: Seq<u8>) -> bool {
    t.len() <= s.len() && s.skip(s.len() - t.len()) == t
}

proof fn lemma_split_no_slash(p: Seq<u8>)
    ensures
        forall|i: int| 0 <= i < split_slash(p).len() ==> #[trigger] no_slash(split_slash(p)[i]),
    decreases p.len(),
{
    if p.len() > 0 {
        lemma_split_no_slash(p.drop_last());
        lemma_split_len(p.drop_last());
        let init = split_slash(p.drop_last());
        if p.last() == slash() {
            assert forall|i: int| 0 <= i < split_slash(p).len() implies #[trigger] no_slash(
                split_slash(p)[i],
            ) by {
                if i < init.len() {
                    assert(split_slash(p)[i] == init[i]);
                }
            }
        } else {
            assert forall|i: int| 0 <= i < split_slash(p).len() implies #[trigger] no_slash(
                split_slash(p)[i],
            ) by {
                if i < init.len() - 1 {
                    assert(split_slash(p)[i] == init[i]);
                } else {
                    assert(no_slash(init[init.len() - 1]));
                    assert(split_slash(p)[i] == init.last().push(p.last()));
                }
            }
        }
    }
}

proof fn lemma_filter_no_slash(s: Seq<Seq<u8>>, pred: spec_fn(Seq<u8>) -> bool)
    requires
        forall|i: int| 0 <= i < s.len() ==> #[trigger] no_slash(s[i]),
    ensures
        forall|i: int| 0 <= i < s.filter(pred).len() ==> #[trigger] no_slash(s.filter(pred)[i]),
    decreases s.len(),
{
    reveal(Seq::filter);
    if s.len() > 0 {
        let init = s.drop_last();
        assert forall|i: int| 0 <= i < init.len() implies #[trigger] no_slash(init[i]) by {
            assert(init[i] == s[i]);
        }
        lemma_filter_no_slash(init, pred);
        assert(no_slash(s[s.len() - 1]));
        let f = init.filter(pred);
        if pred(s.last()) {
            assert(s.filter(pred) == f.push(s.last()));
            assert forall|i: int| 0 <= i < s.filter(pred).len() implies #[trigger] no_slash(
                s.filter(pred)[i],
            ) by {
                if i < f.len() {
                    assert(s.filter(pred)[i] == f[i]);
                }
            }
        } else {
            assert(s.filter(pred) == f);
        }
    }
}

proof fn lemma_components_shape(p: Seq<u8>)
    ensures
        slashes_only_at_root(spec_components(p)),
        all_nonempty(spec_components(p)),
        (spec_components(p).len() > 0 && spec_components(p)[0] == seq![slash()]) <==> (p.len() > 0
            && p[0] == slash()),
{
    let pred = |part: Seq<u8>| names_component(part);
    let parts = split_slash(p);
    lemma_split_no_slash(p);
    lemma_filter_no_slash(parts, pred);
    lemma_components_nonempty(p);
    let kept = parts.filter(pred);
    let has_root = p.len() > 0 && p[0] == slash();
    let cur_dir = !has_root && p.len() > 0 && p[0] == dot() && (p.len() == 1 || p[1] == slash());
    let lead: Seq<Seq<u8>> = if has_root {
        seq![seq![slash()]]
    } else if cur_dir {
        seq![seq![dot()]]
    } else {
        Seq::empty()
    };
    let comps = spec_components(p);
    assert(comps == lead + kept);
    assert(!no_slash(seq![slash()])) by {
        assert(seq![slash()][0] == slash());
    }
    assert(no_slash(seq![dot()]));
    assert forall|i: int| 0 < i < comps.len() implies #[trigger] no_slash(comps[i]) by {
        assert(comps[i] == kept[i - lead.len()]);
    }
    if comps.len() > 0 && lead.len() == 0 {
        assert(comps[0] == kept[0]);
    }
}

proof fn lemma_shrink_shape(segs: Seq<Seq<u8>>, total: int, width: int, first: bool)
    requires
        segs.len() > 0,
        slashes_only_at_root(segs),
        all_nonempty(segs),
    ensures
        spec_shrink(segs, total, width, first).len() > 0,
        spec_shrink(segs, total, width, first).last() == segs.last(),
        slashes_only_at_root(spec_shrink(segs, total, width, first)),
        all_nonempty(spec_shrink(segs, total, width, first)),
        segs.len() >= 2 && segs[0] == seq![slash()] ==> spec_shrink(segs, total, width, first).len()
            >= 2 && spec_shrink(segs, total, width, first)[0] == seq![slash()],
    decreases segs.len(),
{
    if total > width && segs.len() > 1 {
        let mid = (segs.len() - 1) / 2;
        if segs[mid] != seq![slash()] {
            let rest = minus(total, segs[mid].len() as int);
            let next = if first {
                rest + 1
            } else {
                minus(rest, 1)
            };
            let smaller = segs.remove(mid);
            assert forall|i: int| 0 < i < smaller.len() implies #[trigger] no_slash(smaller[i]) by {
                if i < mid {
                    assert(smaller[i] == segs[i]);
                } else {
                    assert(smaller[i] == segs[i + 1]);
                }
            }
            if mid == 0 {
                assert(smaller[0] == segs[1]);
                assert(no_slash(segs[1]));
            } else {
                assert(smaller[0] == segs[0]);
            }
            assert forall|i: int| 0 <= i < smaller.len() implies #[trigger] smaller[i].len() > 0 by {
                if i < mid {
                    assert(smaller[i] == segs[i]);
                } else {
                    assert(smaller[i] == segs[i + 1]);
                }
            }
            assert(smaller.last() == segs.last());
            lemma_shrink_shape(smaller, next, width, false);
        }
    }
}

proof fn lemma_join_shape(segs: Seq<Seq<u8>>)
    requires
        segs.len() > 0,
        slashes_only_at_root(segs),
        all_nonempty(segs),
    ensures
        spec_join(segs).len() > 0,
        segs[0] == seq![slash()] ==> spec_join(segs)[0] == slash(),
        no_slash(segs.last()) ==> ends_with(spec_join(segs), segs.last()),
    decreases segs.len(),
{
    let c = segs.last();
    let init = segs.drop_last();
    assert(c.len() > 0);
    if segs.len() == 1 {
        if c[0] == slash() {
            assert(!no_slash(c));
        }
        assert(spec_join(segs) == c);
        assert(c.skip(0) =~= c);
    } else {
        assert(no_slash(segs[segs.len() - 1]));
        assert(c[0] != slash());
        assert forall|i: int| 0 < i < init.len() implies #[trigger] no_slash(init[i]) by {
            assert(init[i] == segs[i]);
        }
        assert(init[0] == segs[0]);
        assert forall|i: int| 0 <= i < init.len() implies #[trigger] init[i].len() > 0 by {
            assert(init[i] == segs[i]);
        }
        lemma_join_shape(init);
        let j = spec_join(init);
        let r = spec_join(segs);
        if j.last() == slash() {
            assert(r == j + c);
            assert(r.skip(r.len() - c.len()) =~= c);
        } else {
            assert(r == j + seq![slash()] + c);
            assert(r.skip(r.len() - c.len()) =~= c);
        }
        assert(r[0] == j[0]);
    }
}

/// A shortened path that started at the root still starts with the root,
/// and a path that had to be shortened still ends with its last component.
pub proof fn lemma_truncate_keeps_root_and_last(p: Seq<u8>, width: int)
    ensures
        p.len() > 0 && p[0] == slash() ==> spec_truncate_path(p, width).len() > 0
            && spec_truncate_path(p, width)[0] == slash(),
        p.len() > width && spec_components(p).len() > 1 ==> ends_with(
            spec_truncate_path(p, width),
            spec_components(p).last(),
        ),
{
    let comps = spec_components(p);
    lemma_components_shape(p);
    if !(p.len() <= width || comps.len() <= 1) {
        let kept = spec_shrink(comps, p.len() as int, width, true);
        lemma_shrink_shape(comps, p.len() as int, width, true);
        let at = kept.len() as int / 2;
        let ins = kept.insert(at, ellipsis());
        assert(no_slash(ellipsis()));
        assert forall|i: int| 0 < i < ins.len() implies #[trigger] no_slash(ins[i]) by {
            if i < at {
                assert(ins[i] == kept[i]);
            } else if i > at {
                assert(ins[i] == kept[i - 1]);
            }
        }
        if at == 0 {
            assert(ins[0] == ellipsis());
        } else {
            assert(ins[0] == kept[0]);
        }
        assert forall|i: int| 0 <= i < ins.len() implies #[trigger] ins[i].len() > 0 by {
            if i < at {
                assert(ins[i] == kept[i]);
            } else if i > at {
                assert(ins[i] == kept[i - 1]);
            }
        }
        assert(ins.last() == kept.last());
        assert(no_slash(comps[comps.len() - 1]));
        lemma_join_shape(ins);
    }
}

/// Whether `part` names a component.
fn part_names_component(part: &Vec<u8>) -> (b: bool)
    ensures
        b == names_component(part@),
{
    if part.len() == 0 {
        return false;
    }
    if part.len() == 1 && part[0] == 46u8 {
        assert(part@ =~= seq![dot()]);
        return false;
    }
    proof {
        if part@ == seq![dot()] {
            assert(part@[0] == dot());
        }
    }
    true
}

/// The components of the Unix path `p` (see `spec_components`).
pub fn components(p: &[u8]) -> (r: Vec<Vec<u8>>)
    ensures
        views(r@) == spec_components(p@),
        forall|i: int| 0 <= i < r@.len() ==> #[trigger] r@[i]@.len() > 0,
{
    let has_root = p.len() > 0 && p[0] == 47u8;
    let cur_dir = !has_root && p.len() > 0 && p[0] == 46u8 && (p.len() == 1 || p[1] == 47u8);
    let mut out: Vec<Vec<u8>> = Vec::new();
    if has_root || cur_dir {
        let mut first: Vec<u8> = Vec::new();
        first.push(if has_root {
            47u8
        } else {
            46u8
        });
        out.push(first);
    }
    let ghost lead = views(out@);
    proof {
        if has_root || cur_dir {
            assert(lead =~= seq![out@[0]@]);
        }
        assert(lead =~= (if has_root {
            seq![seq![slash()]]
        } else if cur_dir {
            seq![seq![dot()]]
        } else {
            Seq::<Seq<u8>>::empty()
        }));
    }
    let mut cur: Vec<u8> = Vec::new();
    let mut i: usize = 0;
    assert(p@.take(0) =~= Seq::<u8>::empty());
    while i < p.len()
        invariant
            i <= p@.len(),
            cur@ == split_slash(p@.take(i as int)).last(),
            views(out@) == lead + split_slash(p@.take(i as int)).drop_last().filter(
                |part: Seq<u8>| names_component(part),
            ),
        decreases p@.len() - i,
    {
        let ghost before = p@.take(i as int);
        let ghost parts = split_slash(before);
        proof {
            lemma_split_len(before);
        }
        assert(p@.take(i + 1).drop_last() =~= before);
        let b = p[i];
        if b == 47u8 {
            let ghost done = parts.drop_last();
            proof {
                assert(split_slash(p@.take(i + 1)) == parts.push(Seq::<u8>::empty()));
                assert(parts.push(Seq::<u8>::empty()).drop_last() =~= parts);
                assert(parts =~= done.push(parts.last()));
                done.lemma_filter_push(parts.last(), |part: Seq<u8>| names_component(part));
            }
            let keep = part_names_component(&cur);
            let ghost out_before = out@;
            if keep {
                out.push(cur);
                proof {
                    assert(views(out@) =~= views(out_before).push(parts.last()));
                }
            }
            cur = Vec::new();
            proof {
                assert(split_slash(p@.take(i + 1)).drop_last() =~= parts);
            }
        } else {
            proof {
                assert(split_slash(p@.take(i + 1)) == parts.update(
                    parts.len() - 1,
                    parts.last().push(b),
                ));
                assert(split_slash(p@.take(i + 1)).drop_last() =~= parts.drop_last());
            }
            cur.push(b);
        }
        i = i + 1;
    }
    let ghost parts = split_slash(p@);
    proof {
        lemma_split_len(p@);
        assert(p@.take(p@.len() as int) =~= p@);
        assert(parts =~= parts.drop_last().push(parts.last()));
        parts.drop_last().lemma_filter_push(parts.last(), |part: Seq<u8>| names_component(part));
    }
    let keep = part_names_component(&cur);
    let ghost out_before = out@;
    if keep {
        out.push(cur);
        proof {
            assert(views(out@) =~= views(out_before).push(parts.last()));
        }
    }
    proof {
        assert(lead + parts.filter(|part: Seq<u8>| names_component(part)) == spec_components(p@));
        lemma_components_nonempty(p@);
        assert forall|i: int| 0 <= i < out@.len() implies #[trigger] out@[i]@.len() > 0 by {
            assert(views(out@)[i] == out@[i]@);
        }
    }
    out
}

/// Whether the shrinking loop goes on with `segs`.
fn shrink_continues(segs: &Vec<Vec<u8>>, total: usize, width: usize) -> (b: bool)
    ensures
        b == (total > width && segs@.len() > 1 && views(segs@)[(segs@.len() - 1) / 2] != seq![
            slash(),
        ]),
{
    if total <= width || segs.len() <= 1 {
        return false;
    }
    let mid = (segs.len() - 1) / 2;
    let seg = &segs[mid];
    let is_root = seg.len() == 1 && seg[0] == 47u8;
    proof {
        if is_root {
            assert(seg@ =~= seq![slash()]);
        }
        if seg@ == seq![slash()] {
            assert(seg@[0] == slash());
        }
        assert(views(segs@)[mid as int] == seg@);
    }
    !is_root
}

/// The path made of `segs` (see `spec_join`).
fn join(segs: &Vec<Vec<u8>>) -> (r: Vec<u8>)
    ensures
        r@ == spec_join(views(segs@)),
{
    let mut out: Vec<u8> = Vec::new();
    let mut k: usize = 0;
    while k < segs.len()
        invariant
            k <= segs@.len(),
            out@ == spec_join(views(segs@).take(k as int)),
        decreases segs@.len() - k,
    {
        let c = &segs[k];
        proof {
            assert(views(segs@).take(k + 1).drop_last() =~= views(segs@).take(k as int));
            assert(views(segs@).take(k + 1).last() == c@);
        }
        if c.len() > 0 && c[0] == 47u8 {
            out = c.clone();
        } else {
            if out.len() > 0 && out[out.len() - 1] != 47u8 {
                out.push(47u8);
            }
            let ghost with_sep = out@;
            let mut j: usize = 0;
            while j < c.len()
                invariant
                    j <= c@.len(),
                    out@ == with_sep + c@.take(j as int),
                decreases c@.len() - j,
            {
                out.push(c[j]);
                proof {
                    assert(c@.take(j + 1) =~= c@.take(j as int).push(c@[j as int]));
                }
                j = j + 1;
            }
            proof {
                assert(c@.take(c@.len() as int) =~= c@);
            }
        }
        k = k + 1;
    }
    proof {
        assert(views(segs@).take(segs@.len() as int) =~= views(segs@));
    }
    out
}

/// Shortens the Unix path `path` to fit in `width` bytes where it can, for
/// display (see `spec_truncate_path`).  The root is never removed, and the
/// ellipsis stands where components were taken out.
pub fn truncate_path(path: &[u8], width: usize) -> (r: Vec<u8>)
    ensures
        r@ == spec_truncate_path(path@, width as int),
{
    let mut segs = components(path);
    if path.len() <= width || segs.len() <= 1 {
        return vstd::slice::slice_to_vec(path);
    }
    let ghost comps = views(segs@);
    let mut total: usize = path.len();
    let mut first = true;
    while shrink_continues(&segs, total, width)
        invariant
            forall|i: int| 0 <= i < segs@.len() ==> #[trigger] segs@[i]@.len() > 0,
            spec_shrink(views(segs@), total as int, width as int, first) == spec_shrink(
                comps,
                path@.len() as int,
                width as int,
                true,
            ),
        decreases segs@.len(),
    {
        let mid = (segs.len() - 1) / 2;
        let ghost before = segs@;
        let seg_len = segs[mid].len();
        proof {
            assert(views(before)[mid as int].len() == seg_len);
            assert(seg_len > 0);
        }
        total = total.saturating_sub(seg_len);
        if first {
            total = total + 1;
            first = false;
        } else {
            total = total.saturating_sub(1);
        }
        segs.remove(mid);
        proof {
            assert(views(segs@) =~= views(before).remove(mid as int));
            assert forall|i: int| 0 <= i < segs@.len() implies #[trigger] segs@[i]@.len() > 0 by {
                if i < mid {
                    assert(segs@[i] == before[i]);
                } else {
                    assert(segs@[i] == before[i + 1]);
                }
            }
        }
    }
    let at = segs.len() / 2;
    let ghost kept = segs@;
    let dots: Vec<u8> = vec![0xe2u8, 0x80u8, 0xa6u8];
    assert(dots@ =~= ellipsis());
    segs.insert(at, dots);
    proof {
        assert(views(segs@) =~= views(kept).insert(at as int, ellipsis()));
    }
    join(&segs)
}

} // verus!
