//! The traversal engine and the path projection over it.
//!
//! A [`FilesIter`] holds a double-ended work list of `(entry, depth)` pairs
//! seeded with the anchor at depth 0, together with an immutable
//! configuration. Each pull removes one entry (from the back while the back
//! holds a directory in default order, always from the front in
//! files-before-directories order), unconditionally expands a removed
//! directory's children into the list one level deeper, and emits the entry
//! unless a filter hides it. `produce_next` is proved to enumerate exactly
//! [`crate::model::emit_seq`] of the current work list.

use vstd::prelude::*;
use std::collections::VecDeque;
use crate::tree::{File, FileType, height, height_all, lemma_child_height};
use crate::model::{
    Config, default_config, passes, pops_front, popped, front_part, back_part, expand, after_step,
    total_size, emit_seq, lemma_after_step_total_size,
};

verus! {

/// Every entry of a work list has room to count its subtree's depths in a
/// `usize`.
pub open spec fn wf_entries(q: Seq<(File, int)>) -> bool {
    forall|i: int|
        0 <= i < q.len() ==> (#[trigger] q[i]).1 + height(q[i].0) <= usize::MAX
}

/// Lazily evaluated traversal over a borrowed tree. Directory entries wait
/// at the back of the work list, the rest at the front.
#[derive(Debug, Clone)]
pub struct FilesIter<'a> {
    /// Pending `(entry, depth)` pairs.
    pub file_deque: VecDeque<(&'a File, usize)>,
    /// Selects the level-order walk that releases files before nested
    /// directories.
    pub files_before_directories: bool,
    /// Hide directories from the output.
    pub skip_dirs: bool,
    /// Hide regular files from the output.
    pub skip_regular_files: bool,
    /// Hide symlinks from the output.
    pub skip_symlinks: bool,
    /// Smallest depth (inclusive) emitted.
    pub min_depth: usize,
    /// Largest depth (inclusive) emitted.
    pub max_depth: usize,
}

impl<'a> FilesIter<'a> {
    /// The engine's configuration as a mathematical value.
    pub open spec fn config(self) -> Config {
        Config {
            files_before_directories: self.files_before_directories,
            skip_dirs: self.skip_dirs,
            skip_regular_files: self.skip_regular_files,
            skip_symlinks: self.skip_symlinks,
            min_depth: self.min_depth as int,
            max_depth: self.max_depth as int,
        }
    }

    /// The work list as a mathematical sequence of `(entry, depth)` pairs.
    pub open spec fn entries(self) -> Seq<(File, int)> {
        self.file_deque@.map(|i: int, p: (&'a File, usize)| (*p.0, p.1 as int))
    }

    /// Every pending entry has room to count its subtree's depths in a
    /// `usize`. Seeding with the anchor at depth 0 establishes this, and
    /// every pull preserves it.
    pub open spec fn wf(self) -> bool {
        wf_entries(self.entries())
    }

    /// A default-configured engine over an empty work list: default order,
    /// no kind filters, widest depth range.
    pub fn default() -> (r: Self)
        ensures
            r.config() == default_config(),
            r.entries() == Seq::<(File, int)>::empty(),
            r.wf(),
    {
        let r = FilesIter {
            file_deque: VecDeque::new(),
            files_before_directories: false,
            skip_dirs: false,
            skip_regular_files: false,
            skip_symlinks: false,
            min_depth: usize::MIN,
            max_depth: usize::MAX,
        };
        proof {
            assert(r.entries() =~= Seq::<(File, int)>::empty());
        }
        r
    }

    /// Wraps this engine in a path projection with
    /// `show_full_relative_path` enabled.
    pub fn paths(self) -> (r: PathsIter<'a>)
        ensures
            r.file_iter == self,
            r.show_full_relative_path == true,
    {
        PathsIter { file_iter: self, show_full_relative_path: true }
    }

    /// Reconfigures the order mode; everything else, the work list
    /// included, is preserved.
    pub fn files_before_directories(self, arg: bool) -> (r: Self)
        ensures
            r.entries() == self.entries(),
            r.config() == (Config { files_before_directories: arg, ..self.config() }),
            r.wf() == self.wf(),
    {
        let mut s = self;
        s.files_before_directories = arg;
        s
    }

    /// Reconfigures the directory filter; everything else is preserved.
    pub fn skip_dirs(self, arg: bool) -> (r: Self)
        ensures
            r.entries() == self.entries(),
            r.config() == (Config { skip_dirs: arg, ..self.config() }),
            r.wf() == self.wf(),
    {
        let mut s = self;
        s.skip_dirs = arg;
        s
    }

    /// Reconfigures the regular-file filter; everything else is preserved.
    pub fn skip_regular_files(self, arg: bool) -> (r: Self)
        ensures
            r.entries() == self.entries(),
            r.config() == (Config { skip_regular_files: arg, ..self.config() }),
            r.wf() == self.wf(),
    {
        let mut s = self;
        s.skip_regular_files = arg;
        s
    }

    /// Reconfigures the symlink filter; everything else is preserved.
    pub fn skip_symlinks(self, arg: bool) -> (r: Self)
        ensures
            r.entries() == self.entries(),
            r.config() == (Config { skip_symlinks: arg, ..self.config() }),
            r.wf() == self.wf(),
    {
        let mut s = self;
        s.skip_symlinks = arg;
        s
    }

    /// Reconfigures the lower depth bound; everything else is preserved.
    pub fn min_depth(self, min: usize) -> (r: Self)
        ensures
            r.entries() == self.entries(),
            r.config() == (Config { min_depth: min as int, ..self.config() }),
            r.wf() == self.wf(),
    {
        let mut s = self;
        s.min_depth = min;
        s
    }

    /// Reconfigures the upper depth bound; everything else is preserved.
    pub fn max_depth(self, max: usize) -> (r: Self)
        ensures
            r.entries() == self.entries(),
            r.config() == (Config { max_depth: max as int, ..self.config() }),
            r.wf() == self.wf(),
    {
        let mut s = self;
        s.max_depth = max;
        s
    }

    /// Pulls the next qualifying entry, or `None` once the walk is
    /// exhausted. The sequence of entries the pulls produce is exactly
    /// [`emit_seq`] of the configuration and the work list.
    #[verifier::loop_isolation(false)]
    #[verifier::rlimit(100)]
    pub fn produce_next(&mut self) -> (r: Option<&'a File>)
        requires
            old(self).wf(),
        ensures
            final(self).wf(),
            final(self).config() == old(self).config(),
            match r {
                None => {
                    &&& emit_seq(old(self).config(), old(self).entries()) == Seq::<(
                        File,
                        int,
                    )>::empty()
                    &&& final(self).entries() == Seq::<(File, int)>::empty()
                },
                Some(f) => {
                    &&& emit_seq(old(self).config(), old(self).entries()).len() > 0
                    &&& *f == emit_seq(old(self).config(), old(self).entries()).first().0
                    &&& emit_seq(final(self).config(), final(self).entries()) == emit_seq(
                        old(self).config(),
                        old(self).entries(),
                    ).drop_first()
                },
            },
    {
        let ghost c = old(self).config();
        let ghost q0 = old(self).entries();
        loop
            invariant
                self.wf(),
                self.config() == c,
                emit_seq(c, q0) == emit_seq(c, self.entries()),
            decreases total_size(self.entries()),
        {
            let ghost q = self.entries();
            let n = self.file_deque.len();
            if n == 0 {
                proof {
                    assert(q.len() == 0);
                    assert(self.entries() =~= Seq::<(File, int)>::empty());
                }
                return None;
            }
            let back_is_dir = self.file_deque[n - 1].0.file_type.is_dir();
            let pop_from_front = self.files_before_directories || !back_is_dir;
            proof {
                assert(q.last() == (*self.file_deque@[n - 1].0, self.file_deque@[n - 1].1 as int));
                assert(pop_from_front == pops_front(c, q));
            }
            let entry = if pop_from_front {
                self.file_deque.pop_front()
            } else {
                self.file_deque.pop_back()
            };
            let (file, depth) = entry.unwrap();
            proof {
                if pops_front(c, q) {
                    assert(self.entries() =~= q.drop_first());
                    assert((*file, depth as int) == q.first());
                } else {
                    assert(self.entries() =~= q.drop_last());
                    assert((*file, depth as int) == q.last());
                }
                assert((*file, depth as int) == popped(c, q));
                assert(depth + height(*file) <= usize::MAX);
            }
            let ghost rest = self.entries();
            if let FileType::Directory(children) = &file.file_type {
                proof {
                    assert(height(*file) >= 1);
                }
                let child_depth = depth + 1;
                let ghost cs = children@;
                let ghost d1 = child_depth as int;
                let mut i = children.len();
                proof {
                    assert(front_part(cs.subrange(i as int, cs.len() as int), d1) =~= Seq::<(
                        File,
                        int,
                    )>::empty());
                    assert(back_part(cs.subrange(i as int, cs.len() as int), d1) =~= Seq::<(
                        File,
                        int,
                    )>::empty());
                    assert(self.entries() =~= front_part(cs.subrange(i as int, cs.len() as int), d1)
                        + rest + back_part(cs.subrange(i as int, cs.len() as int), d1));
                }
                while i > 0
                    invariant
                        i <= cs.len(),
                        cs == children@,
                        self.config() == c,
                        self.wf(),
                        self.entries() =~= front_part(cs.subrange(i as int, cs.len() as int), d1)
                            + rest + back_part(cs.subrange(i as int, cs.len() as int), d1),
                    decreases i,
                {
                    i = i - 1;
                    let child = &children[i];
                    let ghost pre = self.entries();
                    let ghost sub_done = cs.subrange(i as int + 1, cs.len() as int);
                    let ghost sub_new = cs.subrange(i as int, cs.len() as int);
                    proof {
                        assert(sub_new.first() == cs[i as int]);
                        assert(sub_new.drop_first() =~= sub_done);
                        lemma_child_height(cs, i as int);
                        assert(height_all(cs) == height(*file) - 1);
                        assert(d1 + height(cs[i as int]) <= usize::MAX);
                    }
                    if child.file_type.is_dir() {
                        self.file_deque.push_back((child, child_depth));
                        proof {
                            assert(self.entries() =~= pre.push((cs[i as int], d1)));
                            assert(back_part(sub_new, d1) =~= back_part(sub_done, d1) + seq![
                                (cs[i as int], d1),
                            ]);
                            assert(front_part(sub_new, d1) =~= front_part(sub_done, d1));
                            assert(self.entries() =~= front_part(sub_new, d1) + rest + back_part(
                                sub_new,
                                d1,
                            ));
                        }
                    } else {
                        self.file_deque.push_front((child, child_depth));
                        proof {
                            assert(self.entries() =~= seq![(cs[i as int], d1)] + pre);
                            assert(front_part(sub_new, d1) =~= seq![(cs[i as int], d1)]
                                + front_part(sub_done, d1));
                            assert(back_part(sub_new, d1) =~= back_part(sub_done, d1));
                            assert(self.entries() =~= front_part(sub_new, d1) + rest + back_part(
                                sub_new,
                                d1,
                            ));
                        }
                    }
                    proof {
                        assert forall|j: int| 0 <= j < self.entries().len() implies (
                        #[trigger] self.entries()[j]).1 + height(self.entries()[j].0)
                            <= usize::MAX by {
                            if self.entries()[j] != (cs[i as int], d1) {
                                assert(pre.contains(self.entries()[j]));
                                let k = choose|k: int|
                                    0 <= k < pre.len() && pre[k] == self.entries()[j];
                                assert(pre[k].1 + height(pre[k].0) <= usize::MAX);
                            }
                        }
                    }
                }
                proof {
                    assert(cs.subrange(0, cs.len() as int) =~= cs);
                    assert(self.entries() =~= expand(rest, *file, depth as int));
                }
            } else {
                proof {
                    assert(self.entries() =~= expand(rest, *file, depth as int));
                }
            }
            proof {
                assert(self.entries() =~= after_step(c, q));
                lemma_after_step_total_size(c, q);
            }
            let skip_by_depth = depth < self.min_depth || self.max_depth < depth;
            let skip_by_kind = (self.skip_regular_files && file.file_type.is_regular()) || (
            self.skip_dirs && file.file_type.is_dir()) || (self.skip_symlinks
                && file.file_type.is_symlink());
            if !skip_by_depth && !skip_by_kind {
                proof {
                    assert(passes(c, *file, depth as int));
                    assert(emit_seq(c, q) == seq![(*file, depth as int)] + emit_seq(
                        c,
                        self.entries(),
                    ));
                    assert(emit_seq(c, q).first() == (*file, depth as int));
                    assert(emit_seq(c, q).drop_first() =~= emit_seq(c, self.entries()));
                }
                return Some(file);
            }
            proof {
                assert(!passes(c, *file, depth as int));
                assert(emit_seq(c, q) == emit_seq(c, self.entries()));
            }
        }
    }
}

/// Projects each entry the wrapped engine produces to its stored path.
#[derive(Debug, Clone)]
pub struct PathsIter<'a> {
    /// The traversal engine the projection pulls from.
    pub file_iter: FilesIter<'a>,
    /// When `true`, each pull yields the visited entry's precomputed path.
    /// The `false` setting belongs to an unfinished relative-path mode: it
    /// yields no values at all, which the contract of `produce_next` states
    /// exactly; no other behaviour is promised for it.
    pub show_full_relative_path: bool,
}

impl<'a> PathsIter<'a> {
    /// Reconfigures the path mode; the wrapped engine is preserved.
    pub fn show_full_relative_path(self, arg: bool) -> (r: Self)
        ensures
            r.file_iter == self.file_iter,
            r.show_full_relative_path == arg,
    {
        let mut s = self;
        s.show_full_relative_path = arg;
        s
    }

    /// Pulls one entry from the wrapped engine. With the full-path mode on,
    /// yields that entry's stored path; in the unfinished relative mode the
    /// engine still advances but nothing is yielded.
    pub fn produce_next(&mut self) -> (r: Option<&'a String>)
        requires
            old(self).file_iter.wf(),
        ensures
            final(self).file_iter.wf(),
            final(self).file_iter.config() == old(self).file_iter.config(),
            final(self).show_full_relative_path == old(self).show_full_relative_path,
            ({
                let em = emit_seq(old(self).file_iter.config(), old(self).file_iter.entries());
                let em2 = emit_seq(final(self).file_iter.config(), final(self).file_iter.entries());
                &&& (em.len() == 0 ==> final(self).file_iter.entries() == Seq::<(
                    File,
                    int,
                )>::empty())
                &&& (em.len() > 0 ==> em2 == em.drop_first())
                &&& match r {
                    Some(p) => {
                        &&& old(self).show_full_relative_path
                        &&& em.len() > 0
                        &&& p@ == em.first().0.path@
                    },
                    None => !old(self).show_full_relative_path || em.len() == 0,
                }
            }),
    {
        let next = self.file_iter.produce_next();
        match next {
            None => None,
            Some(file) => {
                if self.show_full_relative_path {
                    Some(&file.path)
                } else {
                    None
                }
            },
        }
    }
}

impl File {
    /// Entry point: a default-configured traversal engine anchored at this
    /// entry. The height bound is what lets depths be counted in a `usize`.
    pub fn files<'a>(&'a self) -> (r: FilesIter<'a>)
        requires
            height(*self) <= usize::MAX,
        ensures
            r.config() == default_config(),
            r.entries() == seq![(*self, 0int)],
            r.wf(),
    {
        let mut it = FilesIter::default();
        it.file_deque.push_back((self, 0));
        proof {
            assert(it.entries() =~= seq![(*self, 0int)]);
        }
        it
    }

    /// Entry point: a path projection over a default-configured engine
    /// anchored at this entry.
    pub fn paths<'a>(&'a self) -> (r: PathsIter<'a>)
        requires
            height(*self) <= usize::MAX,
        ensures
            r.file_iter.config() == default_config(),
            r.file_iter.entries() == seq![(*self, 0int)],
            r.file_iter.wf(),
            r.show_full_relative_path == true,
    {
        self.files().paths()
    }
}

} // verus!
