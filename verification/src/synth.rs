//! Name synthesizer: derives an asset's public filename.
//!
//! The final path segment of the source path is split at its *last* dot
//! into stem and extension (so `bundle.min.js` splits into `bundle.min`
//! and `js`), and the public name is `"{stem}-{token}.{extension}"`. A
//! segment without a dot is rejected with `NoExtension`: every asset
//! must carry an extension.

use vstd::prelude::*;
use crate::digest::spec_digest;

verus! {

/// An error that aborts registry construction.
#[derive(Clone, Copy, Debug, PartialEq, Eq, Structural)]
pub enum BuildError {
    /// A declared source path could not be read.
    SourceUnreadable,
    /// A source filename has no `.`-separated extension.
    NoExtension,
    /// Two distinct records resolved to the same public name.
    NameCollision,
}

/// The part of `p` strictly after the last occurrence of `c`, or all of
/// `p` when `c` does not occur.
pub open spec fn after_last(p: Seq<char>, c: char) -> Seq<char>
    decreases p.len(),
{
    if p.len() == 0 {
        p
    } else if p.last() == c {
        Seq::empty()
    } else {
        after_last(p.drop_last(), c).push(p.last())
    }
}

/// The part of `p` strictly before the last occurrence of `c`, or all
/// of `p` when `c` does not occur.
pub open spec fn before_last(p: Seq<char>, c: char) -> Seq<char>
    decreases p.len(),
{
    if p.len() == 0 {
        p
    } else if p.last() == c {
        p.drop_last()
    } else {
        before_last(p.drop_last(), c)
    }
}

/// The final path segment: what follows the last `/`.
pub open spec fn base_segment(path: Seq<char>) -> Seq<char> {
    after_last(path, '/')
}

/// Whether the final path segment carries an extension.
pub open spec fn has_extension(path: Seq<char>) -> bool {
    base_segment(path).contains('.')
}

/// The public name synthesized from a source path and a token:
/// `"{stem}-{token}.{extension}"`.
pub open spec fn spec_synthesize(path: Seq<char>, token: Seq<char>) -> Seq<char>
    recommends
        has_extension(path),
{
    let base = base_segment(path);
    before_last(base, '.') + seq!['-'] + token + seq!['.'] + after_last(base, '.')
}

/// The public name of an asset: the source path combined with the
/// token its content digests to.
pub open spec fn spec_public_name(path: Seq<char>, content: Seq<u8>) -> Seq<char> {
    spec_synthesize(path, spec_digest(content))
}

/// When `c` does not occur in `p`, `after_last` keeps all of `p`.
proof fn lemma_after_last_absent(p: Seq<char>, c: char)
    requires
        forall|m: int| 0 <= m < p.len() ==> p[m] != c,
    ensures
        after_last(p, c) == p,
    decreases p.len(),
{
    if p.len() > 0 {
        lemma_after_last_absent(p.drop_last(), c);
        assert(after_last(p, c) =~= p);
    }
}

/// When the last occurrence of `c` in `p` is at `k`, `after_last` is
/// the part after `k` and `before_last` is the part before `k`.
proof fn lemma_split_at_last(p: Seq<char>, c: char, k: int)
    requires
        0 <= k < p.len(),
        p[k] == c,
        forall|m: int| k < m < p.len() ==> p[m] != c,
    ensures
        after_last(p, c) == p.subrange(k + 1, p.len() as int),
        before_last(p, c) == p.take(k),
    decreases p.len(),
{
    if k == p.len() - 1 {
        assert(after_last(p, c) =~= p.subrange(k + 1, p.len() as int));
    } else {
        lemma_split_at_last(p.drop_last(), c, k);
        assert(after_last(p, c) =~= p.subrange(k + 1, p.len() as int));
        assert(before_last(p, c) =~= p.take(k));
    }
}

/// Finds the index just past the last occurrence of `c`, or 0 when `c`
/// does not occur.
fn find_after_last(s: &str, len: usize, c: char) -> (r: usize)
    requires
        len == s@.len(),
    ensures
        r <= len,
        forall|m: int| r <= m < s@.len() ==> s@[m] != c,
        r > 0 ==> s@[r - 1] == c,
{
    let mut j: usize = len;
    while j > 0
        invariant
            j <= len,
            len == s@.len(),
            forall|m: int| j <= m < s@.len() ==> s@[m] != c,
        decreases j,
    {
        if s.get_char(j - 1) == c {
            return j;
        }
        j -= 1;
    }
    0
}

/// Synthesizes the public name `"{stem}-{token}.{extension}"` for a
/// source path, or reports `NoExtension` when the path's final segment
/// has no dot.
pub fn synthesize(source_path: &str, token: &str) -> (r: Result<String, BuildError>)
    ensures
        has_extension(source_path@) ==> (r matches Ok(name) && name@ == spec_synthesize(
            source_path@,
            token@,
        )),
        !has_extension(source_path@) ==> r == Err::<String, BuildError>(BuildError::NoExtension),
{
    let path_len = source_path.unicode_len();
    let seg_start = find_after_last(source_path, path_len, '/');
    let base = source_path.substring_char(seg_start, path_len);
    proof {
        if seg_start == 0 {
            lemma_after_last_absent(source_path@, '/');
            assert(base@ =~= base_segment(source_path@));
        } else {
            lemma_split_at_last(source_path@, '/', seg_start - 1);
        }
    }
    let base_len = path_len - seg_start;
    assert(base@.len() == base_len);
    let dot_end = find_after_last(base, base_len, '.');
    if dot_end == 0 {
        proof {
            assert(!base_segment(source_path@).contains('.'));
        }
        return Err(BuildError::NoExtension);
    }
    proof {
        lemma_split_at_last(base@, '.', dot_end - 1);
        assert(base_segment(source_path@).contains('.'));
    }
    let stem = base.substring_char(0, dot_end - 1);
    let ext = base.substring_char(dot_end, base_len);
    let mut name = String::from_str(stem);
    name.append("-");
    name.append(token);
    name.append(".");
    name.append(ext);
    proof {
        reveal_strlit("-");
        reveal_strlit(".");
        assert("-"@ =~= seq!['-']);
        assert("."@ =~= seq!['.']);
        assert(base@.take(dot_end - 1) =~= before_last(base@, '.'));
        assert(name@ =~= spec_synthesize(source_path@, token@));
    }
    Ok(name)
}

/// Determinism of naming: an asset's public name is a pure function of
/// its source path and content, so two builds with identical bytes and
/// identical paths always produce identical names.
pub proof fn lemma_name_deterministic(
    path1: Seq<char>,
    content1: Seq<u8>,
    path2: Seq<char>,
    content2: Seq<u8>,
)
    requires
        path1 == path2,
        content1 == content2,
    ensures
        spec_public_name(path1, content1) == spec_public_name(path2, content2),
{
}

/// Cache busting: when two contents digest to different tokens, the
/// public names an unchanged source path yields for them differ.
pub proof fn lemma_cache_busting(path: Seq<char>, content1: Seq<u8>, content2: Seq<u8>)
    requires
        spec_digest(content1) != spec_digest(content2),
    ensures
        spec_public_name(path, content1) != spec_public_name(path, content2),
{
    let base = base_segment(path);
    let stem = before_last(base, '.');
    let t1 = spec_digest(content1);
    let t2 = spec_digest(content2);
    let n1 = spec_public_name(path, content1);
    let n2 = spec_public_name(path, content2);
    assert(t1.len() == 8 && t2.len() == 8);
    if n1 == n2 {
        assert forall|i: int| 0 <= i < 8 implies t1[i] == t2[i] by {
            assert(n1[stem.len() + 1 + i] == t1[i]);
            assert(n2[stem.len() + 1 + i] == t2[i]);
        }
        assert(t1 =~= t2);
    }
}

} // verus!
