//! Naming policy: deriving an output path from an input path by replacing
//! the final extension of the last path component with a fixed dotted
//! suffix (`.compressed.mp4` for transcodes, `.thumbnail.jpg` for
//! thumbnails). Purely lexical; no filesystem access.

use vstd::prelude::*;
use vstd::string::StrSliceExecFns;
use vstd::string::StringExecFns;

verus! {

/// Index just past the last occurrence of `c` in `s`, or 0 when `c` does
/// not occur in `s` at all.
pub open spec fn split_point(s: Seq<char>, c: char) -> int
    decreases s.len(),
{
    if s.len() == 0 {
        0
    } else if s.last() == c {
        s.len() as int
    } else {
        split_point(s.drop_last(), c)
    }
}

pub proof fn lemma_split_point_props(s: Seq<char>, c: char)
    ensures
        0 <= split_point(s, c) <= s.len(),
        forall|i: int| split_point(s, c) <= i < s.len() ==> s[i] != c,
        split_point(s, c) > 0 ==> s[split_point(s, c) - 1] == c,
    decreases s.len(),
{
    if s.len() == 0 {
    } else if s.last() == c {
    } else {
        lemma_split_point_props(s.drop_last(), c);
        assert forall|i: int| split_point(s, c) <= i < s.len() implies s[i] != c by {
            if i < s.len() - 1 {
                assert(s.drop_last()[i] == s[i]);
            }
        }
        if split_point(s, c) > 0 {
            assert(s.drop_last()[split_point(s, c) - 1] == s[split_point(s, c) - 1]);
        }
    }
}

/// The split point is pinned down by one occurrence of `c` with nothing
/// equal to `c` after it.
pub proof fn lemma_split_point_at(s: Seq<char>, c: char, j: int)
    requires
        0 <= j < s.len(),
        s[j] == c,
        forall|k: int| j < k < s.len() ==> s[k] != c,
    ensures
        split_point(s, c) == j + 1,
{
    lemma_split_point_props(s, c);
    let sp = split_point(s, c);
    if sp <= j {
        assert(s[j] != c);
    }
    if sp > j + 1 {
        assert(s[sp - 1] != c);
    }
}

pub proof fn lemma_split_point_none(s: Seq<char>, c: char)
    requires
        forall|k: int| 0 <= k < s.len() ==> s[k] != c,
    ensures
        split_point(s, c) == 0,
{
    lemma_split_point_props(s, c);
    if split_point(s, c) > 0 {
        assert(s[split_point(s, c) - 1] != c);
    }
}

/// Length of the directory prefix of `s`, including the last `/`;
/// 0 when `s` holds no `/`.
pub open spec fn dir_len(s: Seq<char>) -> int {
    split_point(s, '/')
}

/// The last path component of `s`: everything after the last `/`.
pub open spec fn file_name(s: Seq<char>) -> Seq<char> {
    s.subrange(dir_len(s), s.len() as int)
}

/// Index just past the last `.` within the file name, or 0 when the file
/// name holds no `.`.
pub open spec fn name_dot_point(s: Seq<char>) -> int {
    split_point(file_name(s), '.')
}

/// Where the stem of the path ends: the index of the `.` that starts the
/// final extension of the file name, or the path's length when the file
/// name has no extension slot to replace. A `.` at the very start of the
/// file name (a hidden file) does not begin an extension.
pub open spec fn stem_end(s: Seq<char>) -> int {
    if name_dot_point(s) >= 2 {
        dir_len(s) + name_dot_point(s) - 1
    } else {
        s.len() as int
    }
}

/// The extension of the file name of `s` (the part after its last `.`),
/// or the empty sequence when there is none. A lone leading `.` does not
/// begin an extension.
pub open spec fn extension(s: Seq<char>) -> Seq<char> {
    if name_dot_point(s) >= 2 {
        file_name(s).subrange(name_dot_point(s), file_name(s).len() as int)
    } else {
        Seq::empty()
    }
}

/// The derived output path: the stem of `s` followed by the dotted suffix.
pub open spec fn derived_path(s: Seq<char>, dotted_suffix: Seq<char>) -> Seq<char> {
    s.subrange(0, stem_end(s)) + dotted_suffix
}

/// The transcode output path for source `s`.
pub open spec fn transcode_path(s: Seq<char>) -> Seq<char> {
    derived_path(s, ".compressed.mp4"@)
}

/// The thumbnail output path for source `s`.
pub open spec fn thumbnail_path(s: Seq<char>) -> Seq<char> {
    derived_path(s, ".thumbnail.jpg"@)
}

pub proof fn lemma_stem_end_bounds(s: Seq<char>)
    ensures
        0 <= stem_end(s) <= s.len(),
{
    lemma_split_point_props(s, '/');
    lemma_split_point_props(file_name(s), '.');
}

/// A derived path never equals its own source, as long as the dotted
/// suffix itself holds a `.` past its first character: the tail of the
/// source after its last `.` holds no further `.`, while the suffix does.
pub proof fn lemma_derived_path_differs(s: Seq<char>, dotted_suffix: Seq<char>)
    requires
        exists|i: int| 1 <= i < dotted_suffix.len() && dotted_suffix[i] == '.',
    ensures
        derived_path(s, dotted_suffix) != s,
{
    let i = choose|i: int| 1 <= i < dotted_suffix.len() && dotted_suffix[i] == '.';
    let k = stem_end(s);
    let dpath = derived_path(s, dotted_suffix);
    lemma_split_point_props(s, '/');
    let d = dir_len(s);
    let f = file_name(s);
    lemma_split_point_props(f, '.');
    let q = name_dot_point(s);
    if q >= 2 {
        if dpath == s {
            assert(s.len() == k + dotted_suffix.len());
            assert(dpath[k + i] == dotted_suffix[i]);
            assert(s[k + i] == '.');
            assert(f[q - 1 + i] == s[d + q - 1 + i]);
            assert(f[q - 1 + i] != '.');
            assert(false);
        }
    } else {
        assert(dpath.len() > s.len());
    }
}

/// Length of the directory prefix of `s`, including the final `/`
/// (0 when `s` holds none).
pub fn find_dir_len(s: &str) -> (r: usize)
    ensures
        r as int == dir_len(s@),
{
    let n: usize = s.unicode_len();
    let mut i: usize = n;
    loop
        invariant
            i <= n,
            n as int == s@.len(),
            forall|j: int| i <= j < n ==> s@[j] != '/',
        decreases i,
    {
        if i == 0 {
            proof {
                lemma_split_point_none(s@, '/');
            }
            return 0;
        }
        if s.get_char(i - 1) == '/' {
            proof {
                lemma_split_point_at(s@, '/', i - 1);
            }
            return i;
        }
        i = i - 1;
    }
}

/// Index just past the last `.` of the file name of `s`, or 0 when the
/// file name holds no `.`.
pub fn find_name_dot_point(s: &str) -> (r: usize)
    ensures
        r as int == name_dot_point(s@),
{
    let n: usize = s.unicode_len();
    let d: usize = find_dir_len(s);
    proof {
        lemma_split_point_props(s@, '/');
    }
    let mut i: usize = n;
    loop
        invariant
            d <= i <= n,
            n as int == s@.len(),
            d as int == dir_len(s@),
            forall|j: int| i <= j < n ==> s@[j] != '.',
        decreases i,
    {
        if i == d {
            proof {
                let f = file_name(s@);
                assert forall|k: int| 0 <= k < f.len() implies f[k] != '.' by {
                    assert(f[k] == s@[d + k]);
                }
                lemma_split_point_none(f, '.');
            }
            return 0;
        }
        if s.get_char(i - 1) == '.' {
            proof {
                let f = file_name(s@);
                let j = i - 1 - d as int;
                assert(f[j] == s@[i - 1]);
                assert forall|k: int| j < k < f.len() implies f[k] != '.' by {
                    assert(f[k] == s@[d + k]);
                }
                lemma_split_point_at(f, '.', j);
            }
            return i - d;
        }
        i = i - 1;
    }
}

/// Where the stem of `s` ends: the position of the `.` beginning the final
/// extension of the file name, or the length of `s` when there is none.
pub fn find_stem_end(s: &str) -> (r: usize)
    ensures
        r as int == stem_end(s@),
{
    let n: usize = s.unicode_len();
    let d: usize = find_dir_len(s);
    let q: usize = find_name_dot_point(s);
    proof {
        lemma_split_point_props(s@, '/');
        lemma_split_point_props(file_name(s@), '.');
    }
    if q >= 2 {
        d + q - 1
    } else {
        n
    }
}

/// The transcode output path for `path`: the final extension of the last
/// path component is replaced by the compound extension `compressed.mp4`;
/// a name without an extension receives the suffix whole.
pub fn transcode_output_path(path: &str) -> (r: String)
    ensures
        r@ == transcode_path(path@),
{
    let k: usize = find_stem_end(path);
    proof {
        lemma_stem_end_bounds(path@);
    }
    let prefix: &str = path.substring_char(0, k);
    let r = String::from_str(prefix).concat(".compressed.mp4");
    proof {
        assert(r@ =~= transcode_path(path@));
    }
    r
}

/// The thumbnail output path for `path`: the final extension of the last
/// path component is replaced by the compound extension `thumbnail.jpg`.
pub fn thumbnail_output_path(path: &str) -> (r: String)
    ensures
        r@ == thumbnail_path(path@),
{
    let k: usize = find_stem_end(path);
    proof {
        lemma_stem_end_bounds(path@);
    }
    let prefix: &str = path.substring_char(0, k);
    let r = String::from_str(prefix).concat(".thumbnail.jpg");
    proof {
        assert(r@ =~= thumbnail_path(path@));
    }
    r
}

} // verus!
