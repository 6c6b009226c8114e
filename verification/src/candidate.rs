//! Candidate classification: a directory entry is eligible for processing
//! when it is a regular file, the extension of its path matches the
//! configured filter after lowercasing, and its file name does not already
//! end with the reserved output suffix `compressed.mp4`.

use vstd::prelude::*;
use vstd::string::StrSliceExecFns;

use crate::naming::dir_len;
use crate::naming::extension;
use crate::naming::file_name;
use crate::naming::find_dir_len;
use crate::naming::find_name_dot_point;
use crate::naming::lemma_split_point_props;
use crate::naming::lemma_stem_end_bounds;
use crate::naming::name_dot_point;
use crate::naming::stem_end;
use crate::naming::transcode_path;

verus! {

/// ASCII lowercasing of one character; anything outside `A`..`Z` is kept.
pub open spec fn lower_char(c: char) -> char {
    if c == 'A' {
        'a'
    } else if c == 'B' {
        'b'
    } else if c == 'C' {
        'c'
    } else if c == 'D' {
        'd'
    } else if c == 'E' {
        'e'
    } else if c == 'F' {
        'f'
    } else if c == 'G' {
        'g'
    } else if c == 'H' {
        'h'
    } else if c == 'I' {
        'i'
    } else if c == 'J' {
        'j'
    } else if c == 'K' {
        'k'
    } else if c == 'L' {
        'l'
    } else if c == 'M' {
        'm'
    } else if c == 'N' {
        'n'
    } else if c == 'O' {
        'o'
    } else if c == 'P' {
        'p'
    } else if c == 'Q' {
        'q'
    } else if c == 'R' {
        'r'
    } else if c == 'S' {
        's'
    } else if c == 'T' {
        't'
    } else if c == 'U' {
        'u'
    } else if c == 'V' {
        'v'
    } else if c == 'W' {
        'w'
    } else if c == 'X' {
        'x'
    } else if c == 'Y' {
        'y'
    } else if c == 'Z' {
        'z'
    } else {
        c
    }
}

/// `s` with every ASCII upper-case character lowered.
pub open spec fn lower_seq(s: Seq<char>) -> Seq<char> {
    s.map_values(|c: char| lower_char(c))
}

/// The extension of `path`, lowercased, equals the filter exactly. A path
/// without an extension contributes the empty sequence, so it matches only
/// the empty filter. The filter itself is compared as given, never lowered.
pub open spec fn spec_extension_matches(path: Seq<char>, filter: Seq<char>) -> bool {
    lower_seq(extension(path)) == filter
}

/// `s` ends with `suffix`.
pub open spec fn ends_with(s: Seq<char>, suffix: Seq<char>) -> bool {
    s.len() >= suffix.len() && s.subrange(s.len() - suffix.len(), s.len() as int) == suffix
}

/// The file name of `path` already carries the reserved output suffix, so
/// the entry is itself the product of an earlier run and is never a
/// candidate again.
pub open spec fn spec_has_output_suffix(path: Seq<char>) -> bool {
    ends_with(file_name(path), "compressed.mp4"@)
}

/// Eligibility of one directory entry.
pub open spec fn spec_is_candidate(path: Seq<char>, is_file: bool, filter: Seq<char>) -> bool {
    &&& is_file
    &&& spec_extension_matches(path, filter)
    &&& !spec_has_output_suffix(path)
}

/// ASCII lowercasing of one character.
pub fn to_lower_char(c: char) -> (r: char)
    ensures
        r == lower_char(c),
{
    if c == 'A' {
        'a'
    } else if c == 'B' {
        'b'
    } else if c == 'C' {
        'c'
    } else if c == 'D' {
        'd'
    } else if c == 'E' {
        'e'
    } else if c == 'F' {
        'f'
    } else if c == 'G' {
        'g'
    } else if c == 'H' {
        'h'
    } else if c == 'I' {
        'i'
    } else if c == 'J' {
        'j'
    } else if c == 'K' {
        'k'
    } else if c == 'L' {
        'l'
    } else if c == 'M' {
        'm'
    } else if c == 'N' {
        'n'
    } else if c == 'O' {
        'o'
    } else if c == 'P' {
        'p'
    } else if c == 'Q' {
        'q'
    } else if c == 'R' {
        'r'
    } else if c == 'S' {
        's'
    } else if c == 'T' {
        't'
    } else if c == 'U' {
        'u'
    } else if c == 'V' {
        'v'
    } else if c == 'W' {
        'w'
    } else if c == 'X' {
        'x'
    } else if c == 'Y' {
        'y'
    } else if c == 'Z' {
        'z'
    } else {
        c
    }
}

/// Whether the extension of `path`, lowercased, equals `filter`.
pub fn extension_matches(path: &str, filter: &str) -> (r: bool)
    ensures
        r == spec_extension_matches(path@, filter@),
{
    let n: usize = path.unicode_len();
    let d: usize = find_dir_len(path);
    let q: usize = find_name_dot_point(path);
    let m: usize = filter.unicode_len();
    proof {
        lemma_split_point_props(path@, '/');
        lemma_split_point_props(file_name(path@), '.');
    }
    if q < 2 {
        proof {
            assert(extension(path@) =~= Seq::<char>::empty());
            assert(lower_seq(extension(path@)).len() == 0);
            if m == 0 {
                assert(lower_seq(extension(path@)) =~= filter@);
            }
        }
        return m == 0;
    }
    let start: usize = d + q;
    let elen: usize = n - start;
    proof {
        assert(extension(path@).len() == elen as int);
        assert(lower_seq(extension(path@)).len() == elen as int);
    }
    if m != elen {
        return false;
    }
    let mut k: usize = 0;
    while k < elen
        invariant
            k <= elen,
            n as int == path@.len(),
            m as int == filter@.len(),
            d as int == dir_len(path@),
            q as int == name_dot_point(path@),
            q >= 2,
            start == d + q,
            start + elen == n,
            m == elen,
            extension(path@).len() == elen as int,
            forall|j: int| 0 <= j < elen ==> extension(path@)[j] == path@[start + j],
            forall|j: int| 0 <= j < k ==> lower_char(extension(path@)[j]) == filter@[j],
        decreases elen - k,
    {
        let pc = to_lower_char(path.get_char(start + k));
        let fc = filter.get_char(k);
        if pc != fc {
            proof {
                assert(lower_seq(extension(path@))[k as int] != filter@[k as int]);
            }
            return false;
        }
        k = k + 1;
    }
    proof {
        assert(lower_seq(extension(path@)) =~= filter@);
    }
    true
}

/// Whether the file name of `path` ends with `compressed.mp4`.
pub fn has_output_suffix(path: &str) -> (r: bool)
    ensures
        r == spec_has_output_suffix(path@),
{
    proof {
        reveal_strlit("compressed.mp4");
    }
    let n: usize = path.unicode_len();
    let d: usize = find_dir_len(path);
    proof {
        lemma_split_point_props(path@, '/');
        assert("compressed.mp4"@.len() == 14);
    }
    let flen: usize = n - d;
    if flen < 14 {
        return false;
    }
    let ghost f = file_name(path@);
    let mut k: usize = 0;
    while k < 14
        invariant
            k <= 14,
            n as int == path@.len(),
            d as int == dir_len(path@),
            flen == n - d,
            flen >= 14,
            f == file_name(path@),
            f.len() == flen as int,
            "compressed.mp4"@.len() == 14,
            forall|j: int| 0 <= j < k ==> f[flen - 14 + j] == "compressed.mp4"@[j],
        decreases 14 - k,
    {
        proof {
            reveal_strlit("compressed.mp4");
        }
        let pc = path.get_char(n - 14 + k);
        let sc = "compressed.mp4".get_char(k);
        proof {
            assert(f[flen - 14 + k as int] == path@[n - 14 + k as int]);
        }
        if pc != sc {
            proof {
                assert(f.subrange(flen - 14, flen as int)[k as int] != "compressed.mp4"@[k as int]);
            }
            return false;
        }
        k = k + 1;
    }
    proof {
        assert(f.subrange(flen - 14, flen as int) =~= "compressed.mp4"@);
    }
    true
}

/// Eligibility of one directory entry: a regular file, matching extension,
/// not itself an output of an earlier run.
pub fn is_candidate(path: &str, is_file: bool, filter: &str) -> (r: bool)
    ensures
        r == spec_is_candidate(path@, is_file, filter@),
{
    is_file && extension_matches(path, filter) && !has_output_suffix(path)
}

/// The derived transcode output of any path itself carries the reserved
/// output suffix, so an output of one run is never a candidate of a later
/// run: the suffix exclusion prevents a file from being reprocessed into
/// ever longer names.
pub proof fn lemma_output_is_no_candidate(source: Seq<char>, is_file: bool, filter: Seq<char>)
    ensures
        spec_has_output_suffix(transcode_path(source)),
        !spec_is_candidate(transcode_path(source), is_file, filter),
{
    reveal_strlit(".compressed.mp4");
    reveal_strlit("compressed.mp4");
    let dotted = ".compressed.mp4"@;
    let sfx = "compressed.mp4"@;
    let out = transcode_path(source);
    let k = stem_end(source);
    lemma_stem_end_bounds(source);
    assert(out.len() == k + 15);
    lemma_split_point_props(out, '/');
    let sp = dir_len(out);
    assert(sp <= k) by {
        if sp > k {
            let m = sp - 1 - k;
            assert(out[sp - 1] == dotted[m]);
            assert(dotted[m] != '/');
        }
    }
    let f = file_name(out);
    let flen = f.len() as int;
    assert(flen >= 15);
    assert forall|j: int| 0 <= j < 14 implies f[flen - 14 + j] == sfx[j] by {
        assert(f[flen - 14 + j] == out[k + 1 + j]);
        assert(out[k + 1 + j] == dotted[1 + j]);
        assert(dotted[1 + j] == sfx[j]);
    }
    assert(f.subrange(flen - 14, flen) =~= sfx);
}

/// One entry of the directory walk: its path and whether it is a regular
/// file.
pub struct Entry {
    pub path: String,
    pub is_file: bool,
}

/// The paths of the eligible entries of `entries`, in traversal order,
/// each exactly once.
pub open spec fn candidate_paths(entries: Seq<Entry>, filter: Seq<char>) -> Seq<Seq<char>>
    decreases entries.len(),
{
    if entries.len() == 0 {
        Seq::empty()
    } else {
        let rest = candidate_paths(entries.drop_last(), filter);
        if spec_is_candidate(entries.last().path@, entries.last().is_file, filter) {
            rest.push(entries.last().path@)
        } else {
            rest
        }
    }
}

/// No selected candidate path carries the reserved output suffix: the
/// walk never hands an output of an earlier run back to the encoder.
pub proof fn lemma_candidate_paths_sound(entries: Seq<Entry>, filter: Seq<char>)
    ensures
        forall|j: int|
            0 <= j < candidate_paths(entries, filter).len() ==> !spec_has_output_suffix(
                candidate_paths(entries, filter)[j],
            ),
    decreases entries.len(),
{
    if entries.len() > 0 {
        lemma_candidate_paths_sound(entries.drop_last(), filter);
        let rest = candidate_paths(entries.drop_last(), filter);
        let full = candidate_paths(entries, filter);
        assert forall|j: int| 0 <= j < full.len() implies !spec_has_output_suffix(full[j]) by {
            if j < rest.len() {
                assert(full[j] == rest[j]);
            } else {
                assert(full[j] == entries.last().path@);
            }
        }
    }
}

/// Every eligible entry of the walk is among the selected candidate paths:
/// no regular file with a matching extension and without the reserved
/// output suffix is passed over.
pub proof fn lemma_candidate_paths_complete(entries: Seq<Entry>, filter: Seq<char>)
    ensures
        forall|i: int|
            0 <= i < entries.len() && spec_is_candidate(
                entries[i].path@,
                entries[i].is_file,
                filter,
            ) ==> candidate_paths(entries, filter).contains(entries[i].path@),
    decreases entries.len(),
{
    if entries.len() > 0 {
        lemma_candidate_paths_complete(entries.drop_last(), filter);
        let rest = candidate_paths(entries.drop_last(), filter);
        let full = candidate_paths(entries, filter);
        assert forall|i: int|
            0 <= i < entries.len() && spec_is_candidate(
                entries[i].path@,
                entries[i].is_file,
                filter,
            ) implies full.contains(entries[i].path@) by {
            if i < entries.len() - 1 {
                assert(entries.drop_last()[i] == entries[i]);
                assert(rest.contains(entries[i].path@));
                let w = choose|w: int| 0 <= w < rest.len() && rest[w] == entries[i].path@;
                assert(full[w] == entries[i].path@);
            } else {
                assert(full.last() == entries[i].path@);
            }
        }
    }
}

/// Selects the candidates among the walked entries: every eligible entry,
/// in the order the walk produced it, exactly once; nothing else.
pub fn select_candidates(entries: &Vec<Entry>, filter: &str) -> (r: Vec<String>)
    ensures
        r.deep_view() == candidate_paths(entries@, filter@),
{
    let mut out: Vec<String> = Vec::new();
    let mut i: usize = 0;
    proof {
        assert(entries@.take(0) =~= Seq::<Entry>::empty());
        assert(out.deep_view() =~= candidate_paths(entries@.take(0), filter@));
    }
    while i < entries.len()
        invariant
            i <= entries.len(),
            out.deep_view() == candidate_paths(entries@.take(i as int), filter@),
        decreases entries.len() - i,
    {
        let e = &entries[i];
        let eligible = is_candidate(e.path.as_str(), e.is_file, filter);
        proof {
            assert(entries@.take(i as int + 1).drop_last() =~= entries@.take(i as int));
            assert(entries@.take(i as int + 1).last() == entries@[i as int]);
        }
        if eligible {
            let ghost old_deep = out.deep_view();
            out.push(e.path.clone());
            proof {
                assert(out.deep_view() =~= old_deep.push(e.path@));
            }
        }
        i = i + 1;
    }
    proof {
        assert(entries@.take(entries@.len() as int) =~= entries@);
    }
    out
}

} // verus!
