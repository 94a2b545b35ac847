//! Which paths the repository leaves alone: its own database and Git's
//! directory always, and what the user's ignore file lists.

use vstd::prelude::*;
use crate::external::{gitignore_ignores, spec_gitignore_ignores, str_to_chars, chars_to_string};
use crate::text::{lines, split_lines, views};

verus! {

/// The file that holds the repository's database.
pub open spec fn db_path() -> Seq<char> {
    ".gik.db"@
}

/// The patterns every matcher starts with: the database and everything
/// under it, Git's directory and everything under it, and test scratch
/// files.
pub open spec fn default_patterns() -> Seq<Seq<char>> {
    seq![db_path(), db_path() + "/**"@, ".git"@, ".git/**"@, "*gik_test*"@]
}

/// The text of each string.
pub open spec fn string_views(v: Seq<String>) -> Seq<Seq<char>> {
    v.map_values(|s: String| s@)
}

/// Decides which paths are ignored, by gitignore rules.
pub struct IgnoreMatcher {
    patterns: Vec<String>,
}

impl IgnoreMatcher {
    /// The gitignore lines the matcher was made from, in order.
    pub closed spec fn patterns(&self) -> Seq<Seq<char>> {
        string_views(self.patterns@)
    }

    fn defaults() -> (v: Vec<String>)
        ensures
            string_views(v@) == default_patterns(),
    {
        let mut v: Vec<String> = Vec::new();
        v.push(".gik.db".to_string());
        v.push(".gik.db/**".to_string());
        v.push(".git".to_string());
        v.push(".git/**".to_string());
        v.push("*gik_test*".to_string());
        proof {
            reveal_strlit(".gik.db");
            reveal_strlit(".gik.db/**");
            reveal_strlit("/**");
            assert(".gik.db/**"@ =~= ".gik.db"@ + "/**"@);
        }
        assert(string_views(v@) =~= default_patterns());
        v
    }

    /// A matcher with the default patterns only (no ignore file).
    pub fn new() -> (m: IgnoreMatcher)
        ensures
            m.patterns() == default_patterns(),
    {
        IgnoreMatcher { patterns: Self::defaults() }
    }

    /// A matcher with the default patterns and then each line of the
    /// ignore file's text.
    pub fn with_ignore_file(text: &str) -> (m: IgnoreMatcher)
        ensures
            m.patterns() == default_patterns() + split_lines(text@),
    {
        let mut patterns = Self::defaults();
        let cs = str_to_chars(text);
        let ls = lines(cs.as_slice());
        let ghost start = string_views(patterns@);
        let mut k: usize = 0;
        while k < ls.len()
            invariant
                k <= ls@.len(),
                views(ls@) == split_lines(text@),
                start == default_patterns(),
                string_views(patterns@) == start + views(ls@).subrange(0, k as int),
            decreases ls@.len() - k,
        {
            let ghost before = string_views(patterns@);
            patterns.push(chars_to_string(ls[k].as_slice()));
            proof {
                assert(string_views(patterns@) =~= before.push(ls@[k as int]@));
                assert(views(ls@).subrange(0, k + 1) =~= views(ls@).subrange(0, k as int).push(ls@[k as int]@));
            }
            k += 1;
        }
        assert(views(ls@).subrange(0, k as int) =~= views(ls@));
        IgnoreMatcher { patterns }
    }

    /// Whether the path is ignored (taken as a file).
    pub fn is_ignored(&self, path: &str) -> (r: bool)
        ensures
            r == spec_gitignore_ignores(self.patterns(), path@),
    {
        gitignore_ignores(self.patterns.as_slice(), path)
    }
}

impl Default for IgnoreMatcher {
    /// The matcher of `new`.
    fn default() -> (m: IgnoreMatcher)
        ensures
            m.patterns() == default_patterns(),
    {
        IgnoreMatcher::new()
    }
}

} // verus!
