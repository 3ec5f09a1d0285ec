use vstd::prelude::*;
use vstd::string::StrSliceExecFns;

verus! {

/// Character-wise string equality; `==` on `&str` carries no specification, so
/// the scanner and cache compare through this helper.
pub fn str_eq(a: &str, b: &str) -> (r: bool)
    ensures
        r == (a@ == b@),
{
    let n = a.unicode_len();
    if n != b.unicode_len() {
        return false;
    }
    let mut i: usize = 0;
    while i < n
        invariant
            i <= n,
            n == a@.len(),
            n == b@.len(),
            forall|j: int| 0 <= j < i ==> a@[j] == b@[j],
        decreases n - i,
    {
        if a.get_char(i) != b.get_char(i) {
            return false;
        }
        i += 1;
    }
    proof {
        assert(a@ =~= b@);
    }
    true
}

/// Depth of a path: the number of separators in it.
pub open spec fn depth_of(s: Seq<char>) -> nat
    decreases s.len(),
{
    if s.len() == 0 {
        0
    } else {
        depth_of(s.drop_last()) + if s.last() == '/' {
            1nat
        } else {
            0nat
        }
    }
}

pub proof fn lemma_depth_take_step(s: Seq<char>, i: int)
    requires
        0 <= i < s.len(),
    ensures
        depth_of(s.take(i + 1)) == depth_of(s.take(i)) + if s[i] == '/' {
            1nat
        } else {
            0nat
        },
{
    assert(s.take(i + 1).drop_last() =~= s.take(i));
    assert(s.take(i + 1).last() == s[i]);
}

/// A prefix of a path is at most as deep as the whole path.
proof fn lemma_depth_take_le(s: Seq<char>, m: int)
    requires
        0 <= m <= s.len(),
    ensures
        depth_of(s.take(m)) <= depth_of(s),
    decreases s.len(),
{
    if m == s.len() {
        assert(s.take(m) =~= s);
    } else {
        assert(s.drop_last().take(m) =~= s.take(m));
        lemma_depth_take_le(s.drop_last(), m);
    }
}

/// Count the separators in `path`; the depth a scan bound is measured in.
pub fn count_depth(path: &str) -> (d: u32)
    requires
        path@.len() <= u32::MAX,
    ensures
        d == depth_of(path@),
{
    let n = path.unicode_len();
    let mut i: usize = 0;
    let mut count: usize = 0;
    while i < n
        invariant
            i <= n,
            n == path@.len(),
            n <= u32::MAX,
            count <= i,
            count == depth_of(path@.take(i as int)),
        decreases n - i,
    {
        proof {
            lemma_depth_take_step(path@, i as int);
        }
        if path.get_char(i) == '/' {
            count += 1;
        }
        i += 1;
    }
    proof {
        assert(path@.take(n as int) =~= path@);
    }
    count as u32
}

/// Index of the last occurrence of `c` in `s`, if any.
pub open spec fn rindex_of(s: Seq<char>, c: char) -> Option<int>
    decreases s.len(),
{
    if s.len() == 0 {
        None
    } else if s.last() == c {
        Some(s.len() - 1)
    } else {
        rindex_of(s.drop_last(), c)
    }
}

proof fn lemma_rindex_of(s: Seq<char>, c: char)
    ensures
        match rindex_of(s, c) {
            Some(i) => 0 <= i < s.len() && s[i] == c && forall|j: int|
                i < j < s.len() ==> s[j] != c,
            None => forall|j: int| 0 <= j < s.len() ==> s[j] != c,
        },
    decreases s.len(),
{
    if s.len() > 0 && s.last() != c {
        lemma_rindex_of(s.drop_last(), c);
        assert(forall|j: int| 0 <= j < s.len() - 1 ==> s[j] == s.drop_last()[j]);
    }
}

proof fn lemma_rindex_take_step(s: Seq<char>, i: int, c: char)
    requires
        0 <= i < s.len(),
    ensures
        rindex_of(s.take(i + 1), c) == if s[i] == c {
            Some(i)
        } else {
            rindex_of(s.take(i), c)
        },
{
    assert(s.take(i + 1).drop_last() =~= s.take(i));
    assert(s.take(i + 1).last() == s[i]);
}

/// The extension of a path: what follows the last dot of the last
/// separator-delimited component, provided that dot is not the component's
/// first character. Paths are taken as a directory walk yields them, without
/// trailing separators.
pub open spec fn ext_of(s: Seq<char>) -> Option<Seq<char>> {
    let start = match rindex_of(s, '/') {
        Some(k) => k + 1,
        None => 0,
    };
    match rindex_of(s, '.') {
        Some(j) => if j >= start + 1 {
            Some(s.subrange(j + 1, s.len() as int))
        } else {
            None
        },
        None => None,
    }
}

/// The extensions the gallery supports; matching is case-sensitive.
pub open spec fn is_supported_ext(e: Seq<char>) -> bool {
    e == "png"@ || e == "jpg"@ || e == "jpeg"@
}

/// A file is treated as an image exactly when its extension is one of the
/// supported set.
pub open spec fn is_image_path(s: Seq<char>) -> bool {
    match ext_of(s) {
        Some(e) => is_supported_ext(e),
        None => false,
    }
}

/// Decide whether `path` names a supported image file.
pub fn is_image(path: &str) -> (r: bool)
    ensures
        r == is_image_path(path@),
{
    let n = path.unicode_len();
    let mut i: usize = 0;
    let mut slash: Option<usize> = None;
    let mut dot: Option<usize> = None;
    while i < n
        invariant
            i <= n,
            n == path@.len(),
            match slash {
                Some(k) => k < i && rindex_of(path@.take(i as int), '/') == Some(k as int),
                None => rindex_of(path@.take(i as int), '/') is None,
            },
            match dot {
                Some(j) => j < i && rindex_of(path@.take(i as int), '.') == Some(j as int),
                None => rindex_of(path@.take(i as int), '.') is None,
            },
        decreases n - i,
    {
        proof {
            lemma_rindex_take_step(path@, i as int, '/');
            lemma_rindex_take_step(path@, i as int, '.');
        }
        let c = path.get_char(i);
        if c == '/' {
            slash = Some(i);
        }
        if c == '.' {
            dot = Some(i);
        }
        i += 1;
    }
    proof {
        assert(path@.take(n as int) =~= path@);
    }
    let start: usize = match slash {
        Some(k) => k + 1,
        None => 0,
    };
    match dot {
        Some(j) => {
            if j > start {
                let ext = path.substring_char(j + 1, n);
                str_eq(ext, "png") || str_eq(ext, "jpg") || str_eq(ext, "jpeg")
            } else {
                false
            }
        },
        None => false,
    }
}

/// The directory holding the entry `s` names: everything before the last
/// separator, or the root when that separator comes first. A path without a
/// separator has no parent here; the scanner treats that as a fatal fault.
pub open spec fn parent_of(s: Seq<char>) -> Option<Seq<char>> {
    match rindex_of(s, '/') {
        None => None,
        Some(k) => if k == 0 {
            if s.len() == 1 {
                None
            } else {
                Some(seq!['/'])
            }
        } else {
            Some(s.subrange(0, k))
        },
    }
}

/// The parent's depth never exceeds the path's own depth.
pub proof fn lemma_parent_depth(s: Seq<char>)
    requires
        parent_of(s) is Some,
    ensures
        depth_of(parent_of(s).unwrap()) <= depth_of(s),
{
    lemma_rindex_of(s, '/');
    let k = rindex_of(s, '/').unwrap();
    if k == 0 {
        assert(parent_of(s).unwrap() =~= s.take(1));
        lemma_depth_take_step(s, 0);
        lemma_depth_take_le(s, 1);
        assert(depth_of(s.take(0int)) == 0) by {
            assert(s.take(0int) =~= Seq::<char>::empty());
        }
    } else {
        assert(parent_of(s).unwrap() =~= s.take(k));
        lemma_depth_take_le(s, k);
    }
}

/// Compute the parent directory of a walked path.
pub fn parent_dir(path: &str) -> (r: Option<String>)
    ensures
        match r {
            Some(p) => parent_of(path@) == Some(p@),
            None => parent_of(path@) is None,
        },
{
    let n = path.unicode_len();
    let mut i: usize = 0;
    let mut slash: Option<usize> = None;
    while i < n
        invariant
            i <= n,
            n == path@.len(),
            match slash {
                Some(k) => k < i && rindex_of(path@.take(i as int), '/') == Some(k as int),
                None => rindex_of(path@.take(i as int), '/') is None,
            },
        decreases n - i,
    {
        proof {
            lemma_rindex_take_step(path@, i as int, '/');
        }
        if path.get_char(i) == '/' {
            slash = Some(i);
        }
        i += 1;
    }
    proof {
        assert(path@.take(n as int) =~= path@);
    }
    match slash {
        None => None,
        Some(k) => {
            if k == 0 {
                if n == 1 {
                    None
                } else {
                    let root = path.substring_char(0, 1);
                    proof {
                        assert(root@ =~= seq!['/']) by {
                            assert(root@ == path@.subrange(0int, 1int));
                            assert(path@[0int] == '/') by {
                                lemma_rindex_of(path@, '/');
                            }
                        }
                    }
                    Some(root.to_owned())
                }
            } else {
                proof {
                    assert(path@.subrange(0, k as int) =~= path@.take(k as int));
                }
                Some(path.substring_char(0, k).to_owned())
            }
        },
    }
}

/// What `path` reads relative to `base`: `.` when they are equal, the suffix
/// after the separator when `base` is a proper prefix at a component boundary,
/// nothing otherwise. Both are taken as canonical absolute paths.
pub open spec fn relative_of(base: Seq<char>, p: Seq<char>) -> Option<Seq<char>> {
    if p == base {
        Some(seq!['.'])
    } else if base == seq!['/'] && p.len() > 1 && p[0] == '/' {
        Some(p.subrange(1, p.len() as int))
    } else if p.len() > base.len() && p.subrange(0, base.len() as int) == base && p[base.len() as int]
        == '/' {
        Some(p.subrange(base.len() as int + 1, p.len() as int))
    } else {
        None
    }
}

/// Express `path` relative to `base_path`, both canonical absolute paths.
pub fn get_relative_path(base_path: &str, path: &str) -> (r: Option<String>)
    ensures
        match r {
            Some(s) => relative_of(base_path@, path@) == Some(s@),
            None => relative_of(base_path@, path@) is None,
        },
{
    if str_eq(base_path, path) {
        let d = ".";
        proof {
            reveal_strlit(".");
            assert(d@ =~= seq!['.']);
        }
        return Some(d.to_owned());
    }
    let bn = base_path.unicode_len();
    let n = path.unicode_len();
    if bn == 1 && base_path.get_char(0) == '/' {
        proof {
            assert(base_path@ =~= seq!['/']);
        }
        if n > 1 && path.get_char(0) == '/' {
            return Some(path.substring_char(1, n).to_owned());
        }
        return None;
    }
    proof {
        assert(base_path@ != seq!['/']);
    }
    if n > bn {
        let prefix = path.substring_char(0, bn);
        if str_eq(prefix, base_path) {
            if path.get_char(bn) == '/' {
                return Some(path.substring_char(bn + 1, n).to_owned());
            }
        }
    }
    None
}

/// Relies on `std::path::absolute` to resolve the scan root: the result depends
/// on the process's working directory, so nothing is assumed of its value; the
/// documentation promises an error on an empty path.
#[verifier::external_body]
pub fn to_absolute(path: &str) -> (r: Option<String>)
    ensures
        path@.len() == 0 ==> r is None,
{
    match std::path::absolute(path) {
        Ok(p) => Some(p.to_string_lossy().to_string()),
        Err(_) => None,
    }
}

} // verus!
