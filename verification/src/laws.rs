//! The laws the traversal engine obeys, proved once and for all over the
//! model of [`crate::model`]: completeness and uniqueness of an unfiltered
//! walk, depth correctness, invariance of the produced set under the order
//! mode, non-pruning of the kind filters, depth bounding, and parity of the
//! path projection.

use vstd::prelude::*;
use vstd::multiset::Multiset;
use crate::tree::{File, FileType, size, size_all, height, height_all};
use crate::model::{
    Config, default_config, passes, popped, front_part, back_part, after_step, total_size,
    emit_seq, emitted_paths, lemma_after_step_total_size,
};

verus! {

broadcast use {vstd::multiset::group_multiset_axioms, vstd::seq_lib::group_to_multiset_ensures};

/// The multiset of `(entry, depth)` pairs of the whole tree rooted at `f`
/// when `f` itself is met at depth `d`: every entry of the tree, each with
/// the depth a traversal meets it at.
pub open spec fn pair_mset(f: File, d: int) -> Multiset<(File, int)>
    decreases f,
{
    match f.file_type {
        FileType::Directory(cs) => Multiset::singleton((f, d)).add(children_mset(cs@, d + 1)),
        _ => Multiset::singleton((f, d)),
    }
}

/// The pairs of all the trees rooted at the entries of `s`, met at depth
/// `d`.
pub open spec fn children_mset(s: Seq<File>, d: int) -> Multiset<(File, int)>
    decreases s,
{
    if s.len() == 0 {
        Multiset::empty()
    } else {
        pair_mset(s.first(), d).add(children_mset(s.drop_first(), d))
    }
}

/// The pairs of all the trees rooted at the entries of a work list.
pub open spec fn entries_mset(q: Seq<(File, int)>) -> Multiset<(File, int)>
    decreases q.len(),
{
    if q.len() == 0 {
        Multiset::empty()
    } else {
        pair_mset(q.first().0, q.first().1).add(entries_mset(q.drop_first()))
    }
}

proof fn lemma_entries_mset_concat(a: Seq<(File, int)>, b: Seq<(File, int)>)
    ensures
        entries_mset(a + b) == entries_mset(a).add(entries_mset(b)),
    decreases a.len(),
{
    if a.len() == 0 {
        assert(a + b =~= b);
        assert(entries_mset(a) == Multiset::<(File, int)>::empty());
        assert(entries_mset(a).add(entries_mset(b)) =~= entries_mset(b));
    } else {
        lemma_entries_mset_concat(a.drop_first(), b);
        assert(a.drop_first() + b =~= (a + b).drop_first());
        assert((a + b).first() == a.first());
        assert(entries_mset(a + b) =~= entries_mset(a).add(entries_mset(b)));
    }
}

proof fn lemma_entries_mset_drop_last(q: Seq<(File, int)>)
    requires
        q.len() > 0,
    ensures
        entries_mset(q) == entries_mset(q.drop_last()).add(
            pair_mset(q.last().0, q.last().1),
        ),
{
    lemma_entries_mset_concat(q.drop_last(), seq![q.last()]);
    assert(q.drop_last() + seq![q.last()] =~= q);
    let one = seq![q.last()];
    assert(one.drop_first().len() == 0);
    assert(entries_mset(one.drop_first()) =~= Multiset::<(File, int)>::empty());
    assert(entries_mset(one) =~= pair_mset(q.last().0, q.last().1));
}

/// The two expansion parts of a child list together carry exactly the
/// children's pairs.
proof fn lemma_parts_mset(s: Seq<File>, d: int)
    ensures
        entries_mset(front_part(s, d)).add(entries_mset(back_part(s, d))) == children_mset(s, d),
    decreases s.len(),
{
    if s.len() > 0 {
        lemma_parts_mset(s.drop_first(), d);
        let one = seq![(s.first(), d)];
        assert(entries_mset(one) =~= pair_mset(s.first(), d)) by {
            assert(one.drop_first().len() == 0);
            assert(entries_mset(one.drop_first()) =~= Multiset::<(File, int)>::empty());
        }
        if s.first().file_type is Directory {
            assert(front_part(s, d) == Seq::<(File, int)>::empty() + front_part(s.drop_first(), d));
            assert(Seq::<(File, int)>::empty() + front_part(s.drop_first(), d) =~= front_part(
                s.drop_first(),
                d,
            ));
            lemma_entries_mset_concat(back_part(s.drop_first(), d), one);
            assert(entries_mset(front_part(s, d)).add(entries_mset(back_part(s, d)))
                =~= children_mset(s, d));
        } else {
            assert(back_part(s, d) == back_part(s.drop_first(), d) + Seq::<(File, int)>::empty());
            assert(back_part(s.drop_first(), d) + Seq::<(File, int)>::empty() =~= back_part(
                s.drop_first(),
                d,
            ));
            lemma_entries_mset_concat(one, front_part(s.drop_first(), d));
            assert(entries_mset(front_part(s, d)).add(entries_mset(back_part(s, d)))
                =~= children_mset(s, d));
        }
    }
}

/// One pull step turns the pairs of a work list into the popped pair plus
/// the pairs of the list it leaves behind: nothing is lost, nothing is
/// duplicated.
proof fn lemma_after_step_mset(c: Config, q: Seq<(File, int)>)
    requires
        q.len() > 0,
    ensures
        entries_mset(q) == entries_mset(after_step(c, q)).insert(popped(c, q)),
{
    let (f, d) = popped(c, q);
    let rest = if crate::model::pops_front(c, q) {
        q.drop_first()
    } else {
        q.drop_last()
    };
    if crate::model::pops_front(c, q) {
        assert(entries_mset(q) == pair_mset(f, d).add(entries_mset(rest)));
    } else {
        lemma_entries_mset_drop_last(q);
    }
    match f.file_type {
        FileType::Directory(cs) => {
            lemma_parts_mset(cs@, d + 1);
            lemma_entries_mset_concat(front_part(cs@, d + 1), rest + back_part(cs@, d + 1));
            lemma_entries_mset_concat(rest, back_part(cs@, d + 1));
            assert(front_part(cs@, d + 1) + (rest + back_part(cs@, d + 1)) =~= front_part(
                cs@,
                d + 1,
            ) + rest + back_part(cs@, d + 1));
            assert(entries_mset(q) =~= entries_mset(after_step(c, q)).insert((f, d)));
        },
        _ => {
            assert(pair_mset(f, d) == Multiset::singleton((f, d)));
            assert(entries_mset(q) =~= entries_mset(after_step(c, q)).insert((f, d)));
        },
    }
}

/// The heart of the laws: whatever the order mode, a traversal emits
/// exactly the pairs of its work list that pass the filters, each with its
/// multiplicity.
pub proof fn lemma_emit_is_filtered_visit(c: Config, q: Seq<(File, int)>)
    ensures
        emit_seq(c, q).to_multiset() == entries_mset(q).filter(
            |p: (File, int)| passes(c, p.0, p.1),
        ),
    decreases total_size(q),
{
    let pred = |p: (File, int)| passes(c, p.0, p.1);
    if q.len() == 0 {
        assert(emit_seq(c, q).to_multiset().len() == 0);
        assert(emit_seq(c, q).to_multiset() =~= Multiset::<(File, int)>::empty());
        assert(entries_mset(q).filter(pred) =~= Multiset::<(File, int)>::empty());
    } else {
        let e = popped(c, q);
        let q2 = after_step(c, q);
        lemma_after_step_total_size(c, q);
        lemma_emit_is_filtered_visit(c, q2);
        lemma_after_step_mset(c, q);
        if passes(c, e.0, e.1) {
            assert(emit_seq(c, q) == seq![e] + emit_seq(c, q2));
            vstd::seq_lib::lemma_multiset_commutative(seq![e], emit_seq(c, q2));
            assert(seq![e] =~= Seq::<(File, int)>::empty().push(e));
            assert(Seq::<(File, int)>::empty().to_multiset().len() == 0);
            assert(Seq::<(File, int)>::empty().to_multiset() =~= Multiset::<(File, int)>::empty());
            assert(seq![e].to_multiset() =~= Multiset::<(File, int)>::empty().insert(e));
            assert(emit_seq(c, q).to_multiset() =~= entries_mset(q).filter(pred)) by {
                assert(forall|p: (File, int)|
                    entries_mset(q).filter(pred).count(p) == if pred(p) {
                        entries_mset(q).count(p)
                    } else {
                        0
                    });
                assert(pred(e));
            }
        } else {
            assert(emit_seq(c, q) == emit_seq(c, q2));
            assert(emit_seq(c, q).to_multiset() =~= entries_mset(q).filter(pred)) by {
                assert(forall|p: (File, int)|
                    entries_mset(q).filter(pred).count(p) == if pred(p) {
                        entries_mset(q).count(p)
                    } else {
                        0
                    });
                assert(forall|p: (File, int)|
                    entries_mset(q2).filter(pred).count(p) == if pred(p) {
                        entries_mset(q2).count(p)
                    } else {
                        0
                    });
                assert(!pred(e));
            }
        }
    }
}

proof fn lemma_children_mset_depth(s: Seq<File>, d: int, p: (File, int))
    requires
        children_mset(s, d).count(p) > 0,
    ensures
        d <= p.1 <= d + height_all(s),
    decreases s,
{
    if s.len() > 0 {
        if pair_mset(s.first(), d).count(p) > 0 {
            lemma_pair_mset_depth(s.first(), d, p);
        } else {
            lemma_children_mset_depth(s.drop_first(), d, p);
        }
    }
}

/// Every pair of a tree's visit lies between the depth of its anchor and
/// that depth plus the tree's height.
pub proof fn lemma_pair_mset_depth(f: File, d: int, p: (File, int))
    requires
        pair_mset(f, d).count(p) > 0,
    ensures
        d <= p.1 <= d + height(f),
    decreases f,
{
    match f.file_type {
        FileType::Directory(cs) => {
            if p != (f, d) {
                assert(children_mset(cs@, d + 1).count(p) > 0);
                lemma_children_mset_depth(cs@, d + 1, p);
            }
        },
        _ => {},
    }
}

proof fn lemma_pair_mset_len_all(s: Seq<File>, d: int)
    ensures
        children_mset(s, d).len() == size_all(s),
    decreases s,
{
    if s.len() > 0 {
        lemma_pair_mset_len(s.first(), d);
        lemma_pair_mset_len_all(s.drop_first(), d);
    }
}

/// A tree's visit has exactly one pair per entry of the tree.
pub proof fn lemma_pair_mset_len(f: File, d: int)
    ensures
        pair_mset(f, d).len() == size(f),
    decreases f,
{
    match f.file_type {
        FileType::Directory(cs) => {
            lemma_pair_mset_len_all(cs@, d + 1);
        },
        _ => {},
    }
}

/// Completeness and uniqueness: a default-configured traversal produces
/// every entry of the tree exactly once — the multiset of produced
/// `(entry, depth)` pairs is exactly the tree's own, and the sequence is as
/// long as the tree is big.
pub proof fn lemma_traversal_complete(root: File)
    requires
        height(root) <= usize::MAX,
    ensures
        emit_seq(default_config(), seq![(root, 0int)]).to_multiset() == pair_mset(root, 0),
        emit_seq(default_config(), seq![(root, 0int)]).len() == size(root),
{
    let c = default_config();
    let q = seq![(root, 0int)];
    lemma_emit_is_filtered_visit(c, q);
    let pred = |p: (File, int)| passes(c, p.0, p.1);
    assert(q.drop_first().len() == 0);
    assert(entries_mset(q.drop_first()) =~= Multiset::<(File, int)>::empty());
    assert(entries_mset(q) =~= pair_mset(root, 0));
    assert(entries_mset(q).filter(pred) =~= pair_mset(root, 0)) by {
        assert(forall|p: (File, int)|
            entries_mset(q).filter(pred).count(p) == if pred(p) {
                entries_mset(q).count(p)
            } else {
                0
            });
        assert forall|p: (File, int)| pair_mset(root, 0).count(p) > 0 implies pred(p) by {
            lemma_pair_mset_depth(root, 0, p);
        }
    }
    lemma_pair_mset_len(root, 0);
}

/// Depth correctness: `d == 0` and the entry is the anchor itself, or the
/// entry sits in some child's tree one level lower — exactly the statement
/// that `d` is an edge-distance from the anchor to the entry.
pub open spec fn at_depth(root: File, f: File, d: int) -> bool
    decreases root,
{
    ||| (d == 0 && f == root)
    ||| (root.file_type is Directory && exists|i: int|
        0 <= i < root.file_type->0@.len() && at_depth(
            #[trigger] root.file_type->0@[i],
            f,
            d - 1,
        ))
}

proof fn lemma_children_mset_member(s: Seq<File>, d: int, p: (File, int))
    requires
        children_mset(s, d).count(p) > 0,
    ensures
        exists|i: int| 0 <= i < s.len() && pair_mset(#[trigger] s[i], d).count(p) > 0,
    decreases s,
{
    if s.len() > 0 {
        if pair_mset(s.first(), d).count(p) > 0 {
            assert(pair_mset(s[0], d).count(p) > 0);
        } else {
            lemma_children_mset_member(s.drop_first(), d, p);
            let i = choose|i: int|
                0 <= i < s.drop_first().len() && pair_mset(#[trigger] s.drop_first()[i], d).count(p)
                    > 0;
            assert(s[i + 1] == s.drop_first()[i]);
            assert(pair_mset(s[i + 1], d).count(p) > 0);
        }
    }
}

proof fn lemma_pair_mset_at_depth(f: File, d: int, p: (File, int))
    requires
        pair_mset(f, d).count(p) > 0,
    ensures
        at_depth(f, p.0, p.1 - d),
    decreases f,
{
    match f.file_type {
        FileType::Directory(cs) => {
            if p != (f, d) {
                assert(children_mset(cs@, d + 1).count(p) > 0);
                lemma_children_mset_member(cs@, d + 1, p);
                let i = choose|i: int|
                    0 <= i < cs@.len() && pair_mset(#[trigger] cs@[i], d + 1).count(p) > 0;
                lemma_pair_mset_at_depth(cs@[i], d + 1, p);
                assert(f.file_type->0@[i] == cs@[i]);
            }
        },
        _ => {},
    }
}

/// Depth correctness: whatever the configuration, every pair a traversal
/// anchored at `root` produces carries the edge-distance from `root` to its
/// entry.
pub proof fn lemma_depth_correct(c: Config, root: File, p: (File, int))
    requires
        emit_seq(c, seq![(root, 0int)]).contains(p),
    ensures
        at_depth(root, p.0, p.1),
{
    let q = seq![(root, 0int)];
    lemma_emit_is_filtered_visit(c, q);
    let pred = |pp: (File, int)| passes(c, pp.0, pp.1);
    assert(emit_seq(c, q).to_multiset().count(p) > 0);
    assert(entries_mset(q).filter(pred).count(p) == if pred(p) {
        entries_mset(q).count(p)
    } else {
        0
    });
    assert(q.drop_first().len() == 0);
    assert(entries_mset(q.drop_first()) =~= Multiset::<(File, int)>::empty());
    assert(entries_mset(q) =~= pair_mset(root, 0));
    lemma_pair_mset_at_depth(root, 0, p);
}

/// Order-mode permutation invariance: switching between the two orders
/// reorders the output but never changes the multiset of produced pairs,
/// whatever the filters.
pub proof fn lemma_order_mode_same_multiset(c: Config, q: Seq<(File, int)>)
    ensures
        emit_seq(Config { files_before_directories: true, ..c }, q).to_multiset() == emit_seq(
            Config { files_before_directories: false, ..c },
            q,
        ).to_multiset(),
{
    let c1 = Config { files_before_directories: true, ..c };
    let c2 = Config { files_before_directories: false, ..c };
    lemma_emit_is_filtered_visit(c1, q);
    lemma_emit_is_filtered_visit(c2, q);
    let pred1 = |p: (File, int)| passes(c1, p.0, p.1);
    let pred2 = |p: (File, int)| passes(c2, p.0, p.1);
    assert(emit_seq(c1, q).to_multiset() =~= emit_seq(c2, q).to_multiset()) by {
        assert(forall|p: (File, int)|
            entries_mset(q).filter(pred1).count(p) == if pred1(p) {
                entries_mset(q).count(p)
            } else {
                0
            });
        assert(forall|p: (File, int)|
            entries_mset(q).filter(pred2).count(p) == if pred2(p) {
                entries_mset(q).count(p)
            } else {
                0
            });
        assert(forall|p: (File, int)| #[trigger] pred1(p) == pred2(p));
    }
}

/// Filter non-pruning for the directory filter: enabling `skip_dirs`
/// silences exactly the directory pairs; every other pair — the descendants
/// of the hidden directories included — keeps its multiplicity.
pub proof fn lemma_skip_dirs_non_pruning(c: Config, q: Seq<(File, int)>, p: (File, int))
    ensures
        p.0.file_type is Directory ==> emit_seq(Config { skip_dirs: true, ..c }, q).to_multiset()
            .count(p) == 0,
        !(p.0.file_type is Directory) ==> emit_seq(Config { skip_dirs: true, ..c }, q).to_multiset()
            .count(p) == emit_seq(Config { skip_dirs: false, ..c }, q).to_multiset().count(p),
{
    let on = Config { skip_dirs: true, ..c };
    let off = Config { skip_dirs: false, ..c };
    lemma_emit_is_filtered_visit(on, q);
    lemma_emit_is_filtered_visit(off, q);
    let pred_on = |pp: (File, int)| passes(on, pp.0, pp.1);
    let pred_off = |pp: (File, int)| passes(off, pp.0, pp.1);
    assert(entries_mset(q).filter(pred_on).count(p) == if pred_on(p) {
        entries_mset(q).count(p)
    } else {
        0
    });
    assert(entries_mset(q).filter(pred_off).count(p) == if pred_off(p) {
        entries_mset(q).count(p)
    } else {
        0
    });
}

/// Filter non-pruning for the regular-file filter, as for directories.
pub proof fn lemma_skip_regular_files_non_pruning(c: Config, q: Seq<(File, int)>, p: (File, int))
    ensures
        p.0.file_type is Regular ==> emit_seq(Config { skip_regular_files: true, ..c }, q)
            .to_multiset().count(p) == 0,
        !(p.0.file_type is Regular) ==> emit_seq(Config { skip_regular_files: true, ..c }, q)
            .to_multiset().count(p) == emit_seq(Config { skip_regular_files: false, ..c }, q)
            .to_multiset().count(p),
{
    let on = Config { skip_regular_files: true, ..c };
    let off = Config { skip_regular_files: false, ..c };
    lemma_emit_is_filtered_visit(on, q);
    lemma_emit_is_filtered_visit(off, q);
    let pred_on = |pp: (File, int)| passes(on, pp.0, pp.1);
    let pred_off = |pp: (File, int)| passes(off, pp.0, pp.1);
    assert(entries_mset(q).filter(pred_on).count(p) == if pred_on(p) {
        entries_mset(q).count(p)
    } else {
        0
    });
    assert(entries_mset(q).filter(pred_off).count(p) == if pred_off(p) {
        entries_mset(q).count(p)
    } else {
        0
    });
}

/// Filter non-pruning for the symlink filter, as for directories.
pub proof fn lemma_skip_symlinks_non_pruning(c: Config, q: Seq<(File, int)>, p: (File, int))
    ensures
        p.0.file_type is Symlink ==> emit_seq(Config { skip_symlinks: true, ..c }, q).to_multiset()
            .count(p) == 0,
        !(p.0.file_type is Symlink) ==> emit_seq(Config { skip_symlinks: true, ..c }, q)
            .to_multiset().count(p) == emit_seq(Config { skip_symlinks: false, ..c }, q)
            .to_multiset().count(p),
{
    let on = Config { skip_symlinks: true, ..c };
    let off = Config { skip_symlinks: false, ..c };
    lemma_emit_is_filtered_visit(on, q);
    lemma_emit_is_filtered_visit(off, q);
    let pred_on = |pp: (File, int)| passes(on, pp.0, pp.1);
    let pred_off = |pp: (File, int)| passes(off, pp.0, pp.1);
    assert(entries_mset(q).filter(pred_on).count(p) == if pred_on(p) {
        entries_mset(q).count(p)
    } else {
        0
    });
    assert(entries_mset(q).filter(pred_off).count(p) == if pred_off(p) {
        entries_mset(q).count(p)
    } else {
        0
    });
}

/// Depth bounding: with no kind filters, a traversal anchored at `root`
/// produces exactly the pairs whose depth lies in `[min_depth, max_depth]`,
/// each with the multiplicity the tree gives it — whether or not ancestors
/// above the lower bound were hidden.
pub proof fn lemma_depth_bounding(c: Config, root: File, p: (File, int))
    requires
        !c.skip_dirs,
        !c.skip_regular_files,
        !c.skip_symlinks,
    ensures
        emit_seq(c, seq![(root, 0int)]).to_multiset().count(p) == if c.min_depth <= p.1
            <= c.max_depth {
            pair_mset(root, 0).count(p)
        } else {
            0
        },
{
    let q = seq![(root, 0int)];
    lemma_emit_is_filtered_visit(c, q);
    let pred = |pp: (File, int)| passes(c, pp.0, pp.1);
    assert(entries_mset(q).filter(pred).count(p) == if pred(p) {
        entries_mset(q).count(p)
    } else {
        0
    });
    assert(q.drop_first().len() == 0);
    assert(entries_mset(q.drop_first()) =~= Multiset::<(File, int)>::empty());
    assert(entries_mset(q) =~= pair_mset(root, 0));
}

/// Path/engine parity: the projected path sequence has the same length and
/// order as the engine's own sequence, each item the corresponding entry's
/// stored path.
pub proof fn lemma_paths_parity(c: Config, q: Seq<(File, int)>)
    ensures
        emitted_paths(c, q).len() == emit_seq(c, q).len(),
        forall|i: int|
            0 <= i < emit_seq(c, q).len() ==> emitted_paths(c, q)[i] == emit_seq(c, q)[i].0.path@,
{
}

} // verus!
