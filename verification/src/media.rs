//! Media-file discovery support: deciding by extension whether a
//! file name names a media file.

use vstd::prelude::*;

use crate::text::lower_of;
use crate::text::lowercase;
use crate::text::str_eq;
use vstd::string::StrSliceExecFns;

verus! {

/// The index of the last `.` in `s`, or `-1` when there is none.
pub open spec fn last_dot(s: Seq<char>) -> int
    decreases s.len(),
{
    if s.len() == 0 {
        -1
    } else if s.last() == '.' {
        s.len() - 1
    } else {
        last_dot(s.drop_last())
    }
}

proof fn lemma_last_dot_none(s: Seq<char>)
    requires
        forall|k: int| 0 <= k < s.len() ==> s[k] != '.',
    ensures
        last_dot(s) == -1,
    decreases s.len(),
{
    if s.len() > 0 {
        assert(s.last() == s[s.len() - 1]);
        assert forall|k: int| 0 <= k < s.drop_last().len() implies s.drop_last()[k] != '.' by {
            assert(s.drop_last()[k] == s[k]);
        }
        lemma_last_dot_none(s.drop_last());
    }
}

proof fn lemma_last_dot_at(s: Seq<char>, p: int)
    requires
        0 <= p < s.len(),
        s[p] == '.',
        forall|k: int| p < k < s.len() ==> s[k] != '.',
    ensures
        last_dot(s) == p,
    decreases s.len(),
{
    if p == s.len() - 1 {
        assert(s.last() == s[p]);
    } else {
        assert(s.last() == s[s.len() - 1]);
        assert(s.last() != '.');
        assert(s.drop_last()[p] == s[p]);
        assert forall|k: int| p < k < s.drop_last().len() implies s.drop_last()[k] != '.' by {
            assert(s.drop_last()[k] == s[k]);
        }
        lemma_last_dot_at(s.drop_last(), p);
    }
}

/// The extension of a bare file name: what follows the last `.`,
/// none when there is no `.` or the name is a dot file (the only
/// role of its leading `.` is to hide it).
pub open spec fn extension_of(name: Seq<char>) -> Option<Seq<char>> {
    let p = last_dot(name);
    if p <= 0 {
        None
    } else {
        Some(name.skip(p + 1))
    }
}

/// Whether a lowercased extension names a known media container or
/// codec file type.
pub open spec fn media_ext(e: Seq<char>) -> bool {
    ||| e == "mp4"@
    ||| e == "mkv"@
    ||| e == "avi"@
    ||| e == "mov"@
    ||| e == "wmv"@
    ||| e == "flv"@
    ||| e == "webm"@
    ||| e == "m4v"@
    ||| e == "mpg"@
    ||| e == "mpeg"@
    ||| e == "m2v"@
    ||| e == "3gp"@
    ||| e == "3g2"@
    ||| e == "mxf"@
    ||| e == "ts"@
    ||| e == "mts"@
    ||| e == "m2ts"@
    ||| e == "vob"@
    ||| e == "ogv"@
    ||| e == "qt"@
    ||| e == "rm"@
    ||| e == "rmvb"@
    ||| e == "asf"@
    ||| e == "mp3"@
    ||| e == "wav"@
    ||| e == "flac"@
    ||| e == "m4a"@
    ||| e == "aac"@
    ||| e == "ogg"@
    ||| e == "wma"@
    ||| e == "opus"@
}

/// Whether a file name names a media file: it has an extension whose
/// lowercase form is a known media type.
pub open spec fn is_media_name(name: Seq<char>) -> bool {
    match extension_of(name) {
        Option::Some(e) => media_ext(lower_of(e)),
        Option::None => false,
    }
}

/// Decides by extension whether `file_name` (a bare file name, no
/// directory part) names a media file, case-insensitively.
pub fn is_media_file(file_name: &str) -> (r: bool)
    ensures
        r == is_media_name(file_name@),
{
    let n = file_name.unicode_len();
    let mut i: usize = 0;
    let mut dot: usize = n;
    while i < n
        invariant
            i <= n,
            n == file_name@.len(),
            dot <= n,
            dot == n ==> forall|k: int| 0 <= k < i ==> file_name@[k] != '.',
            dot < n ==> dot < i && file_name@[dot as int] == '.' && forall|k: int|
                dot < k < i ==> file_name@[k] != '.',
        decreases n - i,
    {
        if file_name.get_char(i) == '.' {
            dot = i;
        }
        i += 1;
    }
    if dot == n || dot == 0 {
        proof {
            if dot == n {
                lemma_last_dot_none(file_name@);
            } else {
                lemma_last_dot_at(file_name@, 0);
            }
        }
        return false;
    }
    proof {
        lemma_last_dot_at(file_name@, dot as int);
    }
    let ext = file_name.substring_char(dot + 1, n);
    let low = lowercase(ext);
    let e = low.as_str();
    str_eq(e, "mp4") || str_eq(e, "mkv") || str_eq(e, "avi") || str_eq(e, "mov") || str_eq(
        e,
        "wmv",
    ) || str_eq(e, "flv") || str_eq(e, "webm") || str_eq(e, "m4v") || str_eq(e, "mpg") || str_eq(
        e,
        "mpeg",
    ) || str_eq(e, "m2v") || str_eq(e, "3gp") || str_eq(e, "3g2") || str_eq(e, "mxf") || str_eq(
        e,
        "ts",
    ) || str_eq(e, "mts") || str_eq(e, "m2ts") || str_eq(e, "vob") || str_eq(e, "ogv") || str_eq(
        e,
        "qt",
    ) || str_eq(e, "rm") || str_eq(e, "rmvb") || str_eq(e, "asf") || str_eq(e, "mp3") || str_eq(
        e,
        "wav",
    ) || str_eq(e, "flac") || str_eq(e, "m4a") || str_eq(e, "aac") || str_eq(e, "ogg") || str_eq(
        e,
        "wma",
    ) || str_eq(e, "opus")
}

} // verus!
