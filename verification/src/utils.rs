//! Locating the repository and resolving what the user names: paths
//! relative to the repository root, and commits by bookmark, full hash or
//! unique prefix.

use vstd::prelude::*;
use vstd::string::StringSliceAdditionalSpecFns;
use crate::error::GikError;
use crate::external::{
    chars_to_string, path_ancestors, path_join, path_strip_prefix, spec_path_ancestors,
    spec_path_join, spec_path_strip_prefix, str_to_chars,
};

verus! {

/// The text with every backslash turned into a slash.
pub open spec fn forward_slashes(s: Seq<char>) -> Seq<char> {
    s.map_values(|c: char| if c == '\\' { '/' } else { c })
}

/// "." for an empty path.
pub open spec fn dot_if_empty(s: Seq<char>) -> Seq<char> {
    if s.len() == 0 { "."@ } else { s }
}

/// A path the user typed in `cwd`, made relative to the repository root
/// with forward slashes ("." for the root itself); a path outside the root
/// is kept as typed.
pub open spec fn spec_resolve_path(cwd: Seq<char>, root: Seq<char>, user: Seq<char>) -> Seq<char> {
    match spec_path_strip_prefix(spec_path_join(cwd, user), root) {
        Some(st) => dot_if_empty(forward_slashes(st)),
        None => dot_if_empty(forward_slashes(user)),
    }
}

/// Turns backslashes into slashes, and gives "." for an empty path.
fn normalize_separators(s: &str) -> (r: String)
    ensures
        r@ == dot_if_empty(forward_slashes(s@)),
{
    let cs = str_to_chars(s);
    if cs.len() == 0 {
        return ".".to_string();
    }
    let mut out: Vec<char> = Vec::new();
    let mut k: usize = 0;
    while k < cs.len()
        invariant
            k <= cs@.len(),
            out@ == forward_slashes(cs@.subrange(0, k as int)),
        decreases cs@.len() - k,
    {
        let c = if cs[k] == '\\' { '/' } else { cs[k] };
        out.push(c);
        k += 1;
        assert(out@ =~= forward_slashes(cs@.subrange(0, k as int)));
    }
    assert(cs@.subrange(0, k as int) =~= cs@);
    chars_to_string(out.as_slice())
}

/// Resolves a path given in `cwd` against the repository root.
pub fn resolve_path(cwd: &str, root_dir: &str, user_path: &str) -> (r: String)
    ensures
        r@ == spec_resolve_path(cwd@, root_dir@, user_path@),
{
    let joined = path_join(cwd, user_path);
    match path_strip_prefix(joined.as_str(), root_dir) {
        Some(stripped) => normalize_separators(stripped.as_str()),
        None => normalize_separators(user_path),
    }
}

/// The directories where a repository is looked for, from `current_dir` up
/// to the file system's root: the directory itself first, then each one's
/// parent, nearest first, so that `find_repo_root` on them finds the
/// nearest repository.
pub fn repo_root_candidates(current_dir: &str) -> (r: Vec<String>)
    ensures
        r@.map_values(|s: String| s@) == spec_path_ancestors(current_dir@),
        r@.len() >= 1,
        r@[0]@ == current_dir@,
        forall|i: int| 0 <= i < r@.len() - 1 ==> crate::external::spec_path_parent(#[trigger] r@[i]@) == Some(r@[i + 1]@),
        crate::external::spec_path_parent(r@[r@.len() - 1]@) is None,
{
    path_ancestors(current_dir)
}

/// The message when no directory holds a repository.
pub open spec fn no_repo_message() -> Seq<char> {
    "Not a gik repository (or any of the parent directories): .gik"@
}

/// The first candidate that holds the repository's database: `has_db[i]`
/// says whether candidate `i` does.
pub fn find_repo_root(candidates: &[String], has_db: &[bool]) -> (r: Result<String, GikError>)
    requires
        candidates@.len() == has_db@.len(),
    ensures
        match r {
            Ok(root) => exists|i: int| 0 <= i < candidates@.len() && has_db@[i] && root@ == candidates@[i]@
                && forall|j: int| 0 <= j < i ==> !has_db@[j],
            Err(e) => (forall|j: int| 0 <= j < has_db@.len() ==> !has_db@[j])
                && (e matches GikError::NotFound(m) && m@ == no_repo_message()),
        },
{
    let mut i: usize = 0;
    while i < candidates.len()
        invariant
            candidates@.len() == has_db@.len(),
            i <= candidates@.len(),
            forall|j: int| 0 <= j < i ==> !has_db@[j],
        decreases candidates@.len() - i,
    {
        if has_db[i] {
            return Ok(candidates[i].clone());
        }
        i += 1;
    }
    Err(GikError::NotFound("Not a gik repository (or any of the parent directories): .gik".to_string()))
}

/// Whether the hex form of a hash starts with `prefix`.
pub open spec fn hex_starts_with(h: Seq<u8>, prefix: Seq<char>) -> bool {
    crate::text::starts_with(crate::objects::hex_chars(h), prefix)
}

/// The hashes among `objects` whose hex form starts with `prefix`, in
/// order.
pub open spec fn prefix_matches(objects: Seq<crate::hash::Hash>, prefix: Seq<char>) -> Seq<crate::hash::Hash> {
    objects.filter(|h: crate::hash::Hash| hex_starts_with(h@, prefix))
}

/// What a name resolves to: a bookmark of that name wins; else a name of 40
/// bytes must be a full hash; else it is a prefix that exactly one stored
/// object's hash must start with. `Ok((hash, bookmark name))`, or the error
/// kind: `Err(0)` an invalid full hash, `Err(1)` no match, `Err(2)` more
/// than one.
pub open spec fn spec_resolve_hash(
    target: Seq<char>,
    target_bytes: nat,
    bookmark: Option<Seq<u8>>,
    objects: Seq<crate::hash::Hash>,
) -> Result<(Seq<u8>, bool), u8> {
    match bookmark {
        Some(h) => Ok((h, true)),
        None => if target_bytes == 40 {
            match crate::network::decoded_hash(vstd::utf8::encode_utf8(target)) {
                Some(h) => Ok((h, false)),
                None => Err(0),
            }
        } else if prefix_matches(objects, target).len() == 0 {
            Err(1)
        } else if prefix_matches(objects, target).len() > 1 {
            Err(2)
        } else {
            Ok((prefix_matches(objects, target)[0]@, false))
        },
    }
}

/// Resolves a bookmark name, full hash or hash prefix. `bookmark` is what
/// the bookmark of that name points to, if any; `objects` are the stored
/// objects (only consulted for a prefix).
pub fn resolve_hash(
    target: &str,
    bookmark: Option<crate::hash::Hash>,
    objects: &[crate::hash::Hash],
) -> (r: Result<(crate::hash::Hash, Option<String>), GikError>)
    ensures
        match spec_resolve_hash(target@, target.len() as nat, crate::merge::opt_view(bookmark), objects@) {
            Ok((h, named)) => r matches Ok((x, n)) && x@ == h && (named <==> n is Some) && (n matches Some(s) ==> s@ == target@),
            Err(0) => r matches Err(GikError::Validation(_)),
            Err(1) => r matches Err(GikError::NotFound(m)) && m@ == "Object not found: "@ + target@,
            Err(_) => r matches Err(GikError::AmbiguousHash(m)) && m@ == target@,
        },
{
    if let Some(h) = bookmark {
        return Ok((h, Some(target.to_string())));
    }
    if target.len() == 40 {
        return match crate::hash::Hash::from_hex(target) {
            Ok(h) => Ok((h, None)),
            Err(e) => {
                let mut msg = str_to_chars("Invalid hash format: ");
                crate::text::push_str(&mut msg, e.as_str());
                Err(GikError::Validation(chars_to_string(msg.as_slice())))
            },
        };
    }
    let prefix = str_to_chars(target);
    let mut found: Vec<crate::hash::Hash> = Vec::new();
    let mut k: usize = 0;
    while k < objects.len()
        invariant
            k <= objects@.len(),
            prefix@ == target@,
            found@ == objects@.subrange(0, k as int).filter(|h: crate::hash::Hash| hex_starts_with(h@, target@)),
        decreases objects@.len() - k,
    {
        let hex = str_to_chars(objects[k].to_string().as_str());
        let hit = crate::text::matches_at(hex.as_slice(), prefix.as_slice(), 0);
        proof {
            let sub = objects@.subrange(0, k + 1);
            assert(sub.drop_last() =~= objects@.subrange(0, k as int));
            assert(sub.last() == objects@[k as int]);
            assert(hex@ == crate::objects::hex_chars(objects@[k as int]@));
            reveal(Seq::filter);
        }
        let ghost before = found@;
        if hit {
            found.push(objects[k]);
        }
        proof {
            reveal(Seq::filter);
            let sub = objects@.subrange(0, k + 1);
            assert(hit == hex_starts_with(objects@[k as int]@, target@));
            if hit {
                assert(found@ =~= before.push(objects@[k as int]));
            }
        }
        k += 1;
    }
    proof {
        assert(objects@.subrange(0, objects@.len() as int) =~= objects@);
    }
    if found.len() == 0 {
        let mut msg = str_to_chars("Object not found: ");
        crate::text::push_str(&mut msg, target);
        return Err(GikError::NotFound(chars_to_string(msg.as_slice())));
    }
    if found.len() > 1 {
        return Err(GikError::AmbiguousHash(target.to_string()));
    }
    Ok((found[0], None))
}

} // verus!
