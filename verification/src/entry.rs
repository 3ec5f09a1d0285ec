use vstd::prelude::*;
use crate::image_entry::ImageEntry;
use crate::paths::{
    count_depth, depth_of, is_image, is_image_path, lemma_parent_depth, parent_dir, parent_of,
    to_absolute,
};

verus! {

/// One filesystem entry as a directory walk yields it: its path — absolute,
/// since the walk starts from the absolutized root — and whether it names a
/// directory.
pub struct WalkEntry {
    pub path: String,
    pub is_dir: bool,
}

/// Why a scan fails as a whole. Faults on individual walked entries are
/// skipped by the walker instead of surfacing here.
#[derive(Debug)]
pub enum ScanError {
    /// The root path could not be resolved to an absolute path.
    RootNotResolved,
    /// A qualifying file path had no parent directory to group it under.
    MissingParent,
}

/// One directory's worth of qualifying images discovered by a scan.
pub struct DirEntry {
    pub dir_path: String,
    pub image_entries: Vec<ImageEntry>,
}

/// A walked entry the scanner keeps: a file within the depth bound whose
/// extension is supported.
pub open spec fn qualifying(e: WalkEntry, bound: u32) -> bool {
    &&& !e.is_dir
    &&& depth_of(e.path@) <= bound
    &&& is_image_path(e.path@)
}

/// Some walked entry is a qualifying file lying directly in directory `d`.
pub open spec fn folder_has_qualifying_file(entries: Seq<WalkEntry>, bound: u32, d: Seq<char>) -> bool {
    exists|t: int|
        0 <= t < entries.len() && qualifying(#[trigger] entries[t], bound) && parent_of(
            entries[t].path@,
        ) == Some(d)
}

/// The image paths a record holds, in order.
pub open spec fn image_paths_of(r: DirEntry) -> Seq<Seq<char>> {
    Seq::new(r.image_entries@.len(), |j: int| r.image_entries@[j].image_path@)
}

/// The paths of the qualifying files whose parent directory is `d`, in walk
/// order.
pub open spec fn qualifying_paths_under(entries: Seq<WalkEntry>, bound: u32, d: Seq<char>) -> Seq<
    Seq<char>,
>
    decreases entries.len(),
{
    if entries.len() == 0 {
        Seq::empty()
    } else {
        let rest = qualifying_paths_under(entries.drop_last(), bound, d);
        if qualifying(entries.last(), bound) && parent_of(entries.last().path@) == Some(d) {
            rest.push(entries.last().path@)
        } else {
            rest
        }
    }
}

proof fn lemma_qpu_step(entries: Seq<WalkEntry>, bound: u32, d: Seq<char>, k: int)
    requires
        0 <= k < entries.len(),
    ensures
        qualifying_paths_under(entries.take(k + 1), bound, d) == if qualifying(entries[k], bound)
            && parent_of(entries[k].path@) == Some(d) {
            qualifying_paths_under(entries.take(k), bound, d).push(entries[k].path@)
        } else {
            qualifying_paths_under(entries.take(k), bound, d)
        },
{
    assert(entries.take(k + 1).drop_last() =~= entries.take(k));
    assert(entries.take(k + 1).last() == entries[k]);
}

proof fn lemma_qpu_nonempty(entries: Seq<WalkEntry>, bound: u32, d: Seq<char>)
    requires
        qualifying_paths_under(entries, bound, d).len() > 0,
    ensures
        exists|t: int|
            0 <= t < entries.len() && qualifying(#[trigger] entries[t], bound) && parent_of(
                entries[t].path@,
            ) == Some(d),
    decreases entries.len(),
{
    if entries.len() > 0 {
        let e = entries.last();
        if qualifying(e, bound) && parent_of(e.path@) == Some(d) {
            assert(entries[entries.len() - 1] == e);
        } else {
            lemma_qpu_nonempty(entries.drop_last(), bound, d);
            let t = choose|t: int|
                0 <= t < entries.len() - 1 && qualifying(
                    #[trigger] entries.drop_last()[t],
                    bound,
                ) && parent_of(entries.drop_last()[t].path@) == Some(d);
            assert(entries.drop_last()[t] == entries[t]);
        }
    }
}

/// Some record holds an image with path `p`.
pub open spec fn included(recs: Seq<DirEntry>, p: Seq<char>) -> bool {
    exists|r: int, j: int|
        0 <= r < recs.len() && 0 <= j < recs[r].image_entries@.len()
            && recs[r].image_entries@[j].image_path@ == p
}

/// Depth comparison without a length bound on the path: the separator count
/// always fits the machine word.
fn depth_le(path: &str, bound: u32) -> (r: bool)
    ensures
        r == (depth_of(path@) <= bound),
{
    let n = path.unicode_len();
    let mut i: usize = 0;
    let mut count: usize = 0;
    while i < n
        invariant
            i <= n,
            n == path@.len(),
            count <= i,
            count == depth_of(path@.take(i as int)),
        decreases n - i,
    {
        proof {
            crate::paths::lemma_depth_take_step(path@, i as int);
        }
        if path.get_char(i) == '/' {
            count += 1;
        }
        i += 1;
    }
    proof {
        assert(path@.take(n as int) =~= path@);
    }
    count <= bound as usize
}

/// Walk-pruning predicate: a directory is descended into only while its depth
/// stays within the bound; a file is kept only if it also names a supported
/// image.
pub fn should_process(path: &str, is_dir: bool, bound: u32) -> (r: bool)
    ensures
        r == (depth_of(path@) <= bound && (is_dir || is_image_path(path@))),
{
    if !depth_le(path, bound) {
        return false;
    }
    if is_dir {
        return true;
    }
    is_image(path)
}

/// Resolve the scan root and compute the depth bound `depth(root) + max_depth`.
/// The bound saturates at the integer limit instead of wrapping; no real path
/// comes near that deep.
pub fn prepare_scan(root: &str, max_depth: u32) -> (r: Result<(String, u32), ScanError>)
    ensures
        root@.len() == 0 ==> r is Err,
        (r matches Ok(p) ==> p.0@.len() <= u32::MAX),
        (r matches Ok(p) ==> p.1 == if depth_of(p.0@) + max_depth <= u32::MAX {
            depth_of(p.0@) + max_depth
        } else {
            u32::MAX as int
        }),
        (r matches Err(e) ==> e is RootNotResolved),
{
    let abs = match to_absolute(root) {
        Some(a) => a,
        None => {
            return Err(ScanError::RootNotResolved);
        },
    };
    if abs.as_str().unicode_len() > u32::MAX as usize {
        return Err(ScanError::RootNotResolved);
    }
    let depth = count_depth(abs.as_str());
    let bound = if depth <= u32::MAX - max_depth {
        depth + max_depth
    } else {
        u32::MAX
    };
    Ok((abs, bound))
}

impl DirEntry {
    fn new(dir_path: String) -> (d: Self)
        ensures
            d.dir_path == dir_path,
            d.image_entries@.len() == 0,
    {
        DirEntry { dir_path, image_entries: Vec::new() }
    }

    /// Group the walked entries into one record per directory that directly
    /// holds at least one qualifying image: a file is kept exactly when its
    /// depth stays within `bound` and its extension is supported, each kept
    /// file lands in the record of its parent directory — each record's image
    /// paths are exactly the qualifying walked paths under it, in walk order —
    /// and directories that hold no qualifying image produce no record.
    pub fn search(entries: &Vec<WalkEntry>, bound: u32) -> (r: Result<Vec<DirEntry>, ScanError>)
        ensures
            (r matches Ok(recs) ==> {
                &&& forall|ri: int, j: int|
                    0 <= ri < recs@.len() && 0 <= j < recs@[ri].image_entries@.len() ==> {
                        let img = #[trigger] recs@[ri].image_entries@[j];
                        &&& img.image is None
                        &&& parent_of(img.image_path@) == Some(recs@[ri].dir_path@)
                        &&& depth_of(img.image_path@) <= bound
                        &&& is_image_path(img.image_path@)
                        &&& exists|t: int|
                            0 <= t < entries@.len() && qualifying(#[trigger] entries@[t], bound)
                                && entries@[t].path@ == img.image_path@
                    }
                &&& forall|t: int|
                    0 <= t < entries@.len() && qualifying(#[trigger] entries@[t], bound)
                        ==> included(recs@, entries@[t].path@)
                &&& forall|a: int, b: int|
                    0 <= a < b < recs@.len() ==> recs@[a].dir_path@ != recs@[b].dir_path@
                &&& forall|ri: int|
                    0 <= ri < recs@.len() ==> #[trigger] recs@[ri].image_entries@.len() >= 1
                &&& forall|ri: int|
                    0 <= ri < recs@.len() ==> depth_of(#[trigger] recs@[ri].dir_path@) <= bound
                &&& forall|ri: int|
                    0 <= ri < recs@.len() ==> folder_has_qualifying_file(
                        entries@,
                        bound,
                        #[trigger] recs@[ri].dir_path@,
                    )
                &&& forall|ri: int|
                    0 <= ri < recs@.len() ==> image_paths_of(#[trigger] recs@[ri])
                        == qualifying_paths_under(entries@, bound, recs@[ri].dir_path@)
            }),
            (r is Err <==> exists|t: int|
                0 <= t < entries@.len() && qualifying(#[trigger] entries@[t], bound) && parent_of(
                    entries@[t].path@,
                ) is None),
            (r matches Err(e) ==> e is MissingParent),
    {
        let mut recs: Vec<DirEntry> = Vec::new();
        let n = entries.len();
        let mut k: usize = 0;
        while k < n
            invariant
                k <= n,
                n == entries@.len(),
                forall|a: int, b: int|
                    0 <= a < b < recs@.len() ==> recs@[a].dir_path@ != recs@[b].dir_path@,
                forall|ri: int, j: int|
                    0 <= ri < recs@.len() && 0 <= j < recs@[ri].image_entries@.len() ==> {
                        let img = #[trigger] recs@[ri].image_entries@[j];
                        &&& img.image is None
                        &&& parent_of(img.image_path@) == Some(recs@[ri].dir_path@)
                        &&& depth_of(img.image_path@) <= bound
                        &&& is_image_path(img.image_path@)
                        &&& exists|t: int|
                            0 <= t < k && qualifying(#[trigger] entries@[t], bound)
                                && entries@[t].path@ == img.image_path@
                    },
                forall|t: int|
                    0 <= t < k && qualifying(#[trigger] entries@[t], bound) ==> included(
                        recs@,
                        entries@[t].path@,
                    ),
                forall|t: int|
                    0 <= t < k && qualifying(#[trigger] entries@[t], bound) ==> parent_of(
                        entries@[t].path@,
                    ) is Some,
                forall|ri: int|
                    0 <= ri < recs@.len() ==> #[trigger] recs@[ri].image_entries@.len() >= 1,
                forall|ri: int|
                    0 <= ri < recs@.len() ==> depth_of(#[trigger] recs@[ri].dir_path@) <= bound,
                forall|ri: int|
                    0 <= ri < recs@.len() ==> image_paths_of(#[trigger] recs@[ri])
                        == qualifying_paths_under(
                        entries@.take(k as int),
                        bound,
                        recs@[ri].dir_path@,
                    ),
            decreases n - k,
        {
            let e = &entries[k];
            let keep = !e.is_dir && depth_le(e.path.as_str(), bound) && is_image(e.path.as_str());
            if !keep {
                proof {
                    assert(!qualifying(entries@[k as int], bound));
                    assert forall|ri: int| 0 <= ri < recs@.len() implies image_paths_of(
                        #[trigger] recs@[ri],
                    ) == qualifying_paths_under(
                        entries@.take(k as int + 1),
                        bound,
                        recs@[ri].dir_path@,
                    ) by {
                        lemma_qpu_step(entries@, bound, recs@[ri].dir_path@, k as int);
                    }
                }
            } else {
                {
                    proof {
                        assert(qualifying(entries@[k as int], bound));
                    }
                    let parent = match parent_dir(e.path.as_str()) {
                        Some(p) => p,
                        None => {
                            return Err(ScanError::MissingParent);
                        },
                    };
                    let ghost parent_view = parent@;
                    proof {
                        lemma_parent_depth(e.path@);
                    }
                    let m = recs.len();
                    let mut ri: usize = 0;
                    let mut found: bool = false;
                    while ri < m && !found
                        invariant
                            ri <= m,
                            m == recs@.len(),
                            !found ==> forall|j: int|
                                0 <= j < ri ==> recs@[j].dir_path@ != parent@,
                            found ==> ri < m && recs@[ri as int].dir_path@ == parent@,
                        decreases m - ri + (if found { 0int } else { 1int }),
                    {
                        if recs[ri].dir_path == parent {
                            found = true;
                        } else {
                            ri += 1;
                        }
                    }
                    let ghost recs_before = recs@;
                    if !found {
                        proof {
                            assert(forall|j: int|
                                0 <= j < recs@.len() ==> recs@[j].dir_path@ != parent@);
                            assert(qualifying_paths_under(
                                entries@.take(k as int),
                                bound,
                                parent_view,
                            ).len() == 0) by {
                                if qualifying_paths_under(
                                    entries@.take(k as int),
                                    bound,
                                    parent_view,
                                ).len() > 0 {
                                    lemma_qpu_nonempty(
                                        entries@.take(k as int),
                                        bound,
                                        parent_view,
                                    );
                                    let t = choose|t: int|
                                        0 <= t < k && qualifying(
                                            #[trigger] entries@.take(k as int)[t],
                                            bound,
                                        ) && parent_of(entries@.take(k as int)[t].path@) == Some(
                                            parent_view,
                                        );
                                    assert(entries@.take(k as int)[t] == entries@[t]);
                                    assert(qualifying(entries@[t], bound));
                                    assert(included(recs@, entries@[t].path@));
                                    let (r0, j0): (int, int) = choose|r0: int, j0: int|
                                        0 <= r0 < recs@.len() && 0 <= j0
                                            < recs@[r0].image_entries@.len()
                                            && recs@[r0].image_entries@[j0].image_path@
                                            == entries@[t].path@;
                                    assert(parent_of(entries@[t].path@) == Some(
                                        recs@[r0].dir_path@,
                                    ));
                                    assert(recs@[r0].dir_path@ == parent_view);
                                    assert(false);
                                }
                            }
                        }
                        recs.push(DirEntry::new(parent));
                    }
                    let ghost with_rec = recs@;
                    let mut rec = recs.remove(ri);
                    rec.image_entries.push(
                        ImageEntry { image_path: e.path.clone(), image: None },
                    );
                    recs.insert(ri, rec);
                    proof {
                        assert(recs@ =~= with_rec.update(ri as int, rec));
                        assert(included(recs@, entries@[k as int].path@)) by {
                            assert(recs@[ri as int].image_entries@.last().image_path@
                                == entries@[k as int].path@);
                        }
                        assert forall|t: int|
                            0 <= t < k && qualifying(#[trigger] entries@[t], bound) implies
                            included(recs@, entries@[t].path@) by {
                            let (r0, j0): (int, int) = choose|r0: int, j0: int|
                                0 <= r0 < recs_before.len() && 0 <= j0
                                    < recs_before[r0].image_entries@.len()
                                    && recs_before[r0].image_entries@[j0].image_path@
                                    == entries@[t].path@;
                            assert(recs@[r0].image_entries@[j0].image_path@ == entries@[t].path@);
                        }
                        assert(parent_of(entries@[k as int].path@) == Some(parent_view));
                        assert forall|ri2: int| 0 <= ri2 < recs@.len() implies image_paths_of(
                            #[trigger] recs@[ri2],
                        ) == qualifying_paths_under(
                            entries@.take(k as int + 1),
                            bound,
                            recs@[ri2].dir_path@,
                        ) by {
                            lemma_qpu_step(entries@, bound, recs@[ri2].dir_path@, k as int);
                            if ri2 == ri as int {
                                let base = with_rec[ri as int];
                                assert(recs@[ri2] == rec);
                                assert(rec.dir_path@ == parent_view);
                                assert(image_paths_of(rec) =~= image_paths_of(base).push(
                                    entries@[k as int].path@,
                                ));
                                assert(image_paths_of(base) =~= qualifying_paths_under(
                                    entries@.take(k as int),
                                    bound,
                                    parent_view,
                                ));
                            } else {
                                assert(recs@[ri2] == with_rec[ri2]);
                                assert(recs@[ri2].dir_path@ != parent_view);
                            }
                        }
                    }
                }
            }
            k += 1;
        }
        proof {
            assert(entries@.take(n as int) =~= entries@);
            assert forall|ri: int| 0 <= ri < recs@.len() implies folder_has_qualifying_file(
                entries@,
                bound,
                #[trigger] recs@[ri].dir_path@,
            ) by {
                let img = recs@[ri].image_entries@[0];
                let t = choose|t: int|
                    0 <= t < k && qualifying(#[trigger] entries@[t], bound) && entries@[t].path@
                        == img.image_path@;
                assert(parent_of(entries@[t].path@) == Some(recs@[ri].dir_path@));
            }
        }
        Ok(recs)
    }
}

} // verus!
