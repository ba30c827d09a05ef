//! The mathematical model of a traversal: the engine's configuration as a
//! ghost value, one step of the work-list algorithm, and `emit_seq`, the
//! full sequence of `(entry, depth)` pairs a traversal produces from a given
//! work list. The executable engine in [`crate::iter`] is proved to follow
//! `emit_seq` pull by pull.

use vstd::prelude::*;
use crate::tree::{File, FileType, size, size_all};

verus! {

/// The engine's immutable configuration.
pub ghost struct Config {
    /// `true` selects the level-order walk that releases the files of a
    /// level before its nested directories; `false` the directory-
    /// prioritized depth-first walk.
    pub files_before_directories: bool,
    /// Hide directories from the output.
    pub skip_dirs: bool,
    /// Hide regular files from the output.
    pub skip_regular_files: bool,
    /// Hide symlinks from the output.
    pub skip_symlinks: bool,
    /// Smallest depth (inclusive) an entry may have to be emitted.
    pub min_depth: int,
    /// Largest depth (inclusive) an entry may have to be emitted.
    pub max_depth: int,
}

/// The configuration a freshly built engine carries: default order, no kind
/// filters, and the widest depth range the engine can represent.
pub open spec fn default_config() -> Config {
    Config {
        files_before_directories: false,
        skip_dirs: false,
        skip_regular_files: false,
        skip_symlinks: false,
        min_depth: 0,
        max_depth: usize::MAX as int,
    }
}

/// Whether the entry `f`, met at depth `d`, survives the emission filters.
/// Filters only hide entries from the output; they never prune the walk.
pub open spec fn passes(c: Config, f: File, d: int) -> bool {
    &&& c.min_depth <= d
    &&& d <= c.max_depth
    &&& !(c.skip_dirs && f.file_type is Directory)
    &&& !(c.skip_regular_files && f.file_type is Regular)
    &&& !(c.skip_symlinks && f.file_type is Symlink)
}

/// Whether the next pop removes the front entry of the work list `q`.
/// In files-before-directories mode the front is always taken; otherwise
/// the back is taken for as long as it holds a directory.
pub open spec fn pops_front(c: Config, q: Seq<(File, int)>) -> bool
    recommends
        q.len() > 0,
{
    c.files_before_directories || !(q.last().0.file_type is Directory)
}

/// The entry the next pop removes from the work list `q`.
pub open spec fn popped(c: Config, q: Seq<(File, int)>) -> (File, int)
    recommends
        q.len() > 0,
{
    if pops_front(c, q) {
        q.first()
    } else {
        q.last()
    }
}

/// The children of `s` that are not directories, tagged with depth `d`, in
/// their original relative order. These go to the front of the work list.
pub open spec fn front_part(s: Seq<File>, d: int) -> Seq<(File, int)>
    decreases s.len(),
{
    if s.len() == 0 {
        Seq::empty()
    } else {
        (if s.first().file_type is Directory {
            Seq::empty()
        } else {
            seq![(s.first(), d)]
        }) + front_part(s.drop_first(), d)
    }
}

/// The children of `s` that are directories, tagged with depth `d`, in
/// reverse order. These go to the back of the work list, so that a back pop
/// meets the first directory child first.
pub open spec fn back_part(s: Seq<File>, d: int) -> Seq<(File, int)>
    decreases s.len(),
{
    if s.len() == 0 {
        Seq::empty()
    } else {
        back_part(s.drop_first(), d) + (if s.first().file_type is Directory {
            seq![(s.first(), d)]
        } else {
            Seq::empty()
        })
    }
}

/// The work list after the popped entry `(f, d)` has been expanded over the
/// remainder `rest`: a directory contributes its non-directory children to
/// the front and its directory children to the back, each one level deeper;
/// every other kind contributes nothing.
pub open spec fn expand(rest: Seq<(File, int)>, f: File, d: int) -> Seq<(File, int)> {
    match f.file_type {
        FileType::Directory(cs) => front_part(cs@, d + 1) + rest + back_part(cs@, d + 1),
        _ => rest,
    }
}

/// The work list left behind by one pull step on the nonempty list `q`:
/// the chosen entry is removed and unconditionally expanded.
pub open spec fn after_step(c: Config, q: Seq<(File, int)>) -> Seq<(File, int)>
    recommends
        q.len() > 0,
{
    let rest = if pops_front(c, q) {
        q.drop_first()
    } else {
        q.drop_last()
    };
    expand(rest, popped(c, q).0, popped(c, q).1)
}

/// Sum of the subtree sizes of the entries of a work list: how many pull
/// steps remain before the list runs dry.
pub open spec fn total_size(q: Seq<(File, int)>) -> nat
    decreases q.len(),
{
    if q.len() == 0 {
        0
    } else {
        size(q.first().0) + total_size(q.drop_first())
    }
}

/// Splitting a work list splits its total size.
pub proof fn lemma_total_size_concat(a: Seq<(File, int)>, b: Seq<(File, int)>)
    ensures
        total_size(a + b) == total_size(a) + total_size(b),
    decreases a.len(),
{
    if a.len() == 0 {
        assert(a + b =~= b);
    } else {
        lemma_total_size_concat(a.drop_first(), b);
        assert(a.drop_first() + b =~= (a + b).drop_first());
        assert((a + b).first() == a.first());
    }
}

/// Total size seen from the back of a nonempty work list.
pub proof fn lemma_total_size_drop_last(q: Seq<(File, int)>)
    requires
        q.len() > 0,
    ensures
        total_size(q) == total_size(q.drop_last()) + size(q.last().0),
{
    lemma_total_size_concat(q.drop_last(), seq![q.last()]);
    assert(q.drop_last() + seq![q.last()] =~= q);
    assert(total_size(seq![q.last()]) == size(q.last().0) + total_size(
        seq![q.last()].drop_first(),
    ));
    assert(seq![q.last()].drop_first().len() == 0);
}

/// The two expansion parts of a child list together weigh exactly as much
/// as the children themselves.
pub proof fn lemma_parts_size(s: Seq<File>, d: int)
    ensures
        total_size(front_part(s, d)) + total_size(back_part(s, d)) == size_all(s),
    decreases s.len(),
{
    if s.len() > 0 {
        lemma_parts_size(s.drop_first(), d);
        let one = seq![(s.first(), d)];
        assert(total_size(one) == size(s.first()) + total_size(one.drop_first()));
        assert(one.drop_first().len() == 0);
        if s.first().file_type is Directory {
            assert(front_part(s, d) == Seq::<(File, int)>::empty() + front_part(s.drop_first(), d));
            assert(Seq::<(File, int)>::empty() + front_part(s.drop_first(), d) =~= front_part(
                s.drop_first(),
                d,
            ));
            lemma_total_size_concat(back_part(s.drop_first(), d), one);
        } else {
            assert(back_part(s, d) == back_part(s.drop_first(), d) + Seq::<(File, int)>::empty());
            assert(back_part(s.drop_first(), d) + Seq::<(File, int)>::empty() =~= back_part(
                s.drop_first(),
                d,
            ));
            lemma_total_size_concat(one, front_part(s.drop_first(), d));
        }
    }
}

/// Each pull step shrinks the total size of the work list by exactly one:
/// the popped entry is consumed, and its expansion adds back everything
/// below it.
pub proof fn lemma_after_step_total_size(c: Config, q: Seq<(File, int)>)
    requires
        q.len() > 0,
    ensures
        total_size(after_step(c, q)) + 1 == total_size(q),
{
    let (f, d) = popped(c, q);
    let rest = if pops_front(c, q) {
        q.drop_first()
    } else {
        q.drop_last()
    };
    if !pops_front(c, q) {
        lemma_total_size_drop_last(q);
    }
    assert(total_size(rest) + size(f) == total_size(q));
    match f.file_type {
        FileType::Directory(cs) => {
            lemma_parts_size(cs@, d + 1);
            lemma_total_size_concat(front_part(cs@, d + 1), rest + back_part(cs@, d + 1));
            lemma_total_size_concat(rest, back_part(cs@, d + 1));
            assert(front_part(cs@, d + 1) + (rest + back_part(cs@, d + 1)) =~= front_part(
                cs@,
                d + 1,
            ) + rest + back_part(cs@, d + 1));
        },
        _ => {},
    }
}

/// The sequence of `(entry, depth)` pairs a traversal configured by `c`
/// produces from the work list `q`, in emission order.
pub open spec fn emit_seq(c: Config, q: Seq<(File, int)>) -> Seq<(File, int)>
    decreases total_size(q),
    via emit_seq_decreases
{
    if q.len() == 0 {
        Seq::empty()
    } else {
        let e = popped(c, q);
        let q2 = after_step(c, q);
        if passes(c, e.0, e.1) {
            seq![e] + emit_seq(c, q2)
        } else {
            emit_seq(c, q2)
        }
    }
}

#[via_fn]
proof fn emit_seq_decreases(c: Config, q: Seq<(File, int)>) {
    if q.len() != 0 {
        lemma_after_step_total_size(c, q);
    }
}

/// The paths of the entries a traversal produces, in emission order.
pub open spec fn emitted_paths(c: Config, q: Seq<(File, int)>) -> Seq<Seq<char>> {
    emit_seq(c, q).map(|i: int, p: (File, int)| p.0.path@)
}

} // verus!
