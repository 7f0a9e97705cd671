//! The crates of a resolved workspace.
//!
//! The caller asks `cargo metadata` for the workspace's packages and hands
//! their names and manifest directories here.

use vstd::prelude::*;
use vstd::string::*;

use crate::order::{compare_text, lemma_lex_order_antisymmetric, lemma_lex_order_transitive,
    sort_spec, sort_stable, text_key, text_order, Ordered};
use crate::text::push_text;

verus! {

/// A resolved workspace.
#[derive(Debug)]
pub struct Workspace {
    /// Absolute path of the workspace root.
    pub root: String,
    /// Member crates, ordered by name.
    pub crates: Vec<CrateInfo>,
}

/// A single crate within a workspace.
#[derive(Debug)]
pub struct CrateInfo {
    pub name: String,
    /// Absolute path of the crate's `src/` directory.
    pub src_root: String,
}

/// A workspace member as `cargo metadata` describes it.
#[derive(Debug)]
pub struct PackageInfo {
    pub name: String,
    /// The directory that holds the package's manifest.
    pub manifest_dir: String,
}

/// Crates are ordered by name.
impl Ordered for CrateInfo {
    open spec fn ord_le(self, other: Self) -> bool {
        text_order(self.name@, other.name@) <= 0
    }

    proof fn lemma_ord_total(a: Self, b: Self) {
        lemma_lex_order_antisymmetric(text_key(a.name@), text_key(b.name@));
    }

    proof fn lemma_ord_transitive(a: Self, b: Self, c: Self) {
        lemma_lex_order_transitive(text_key(a.name@), text_key(b.name@), text_key(c.name@));
    }

    fn le(&self, other: &Self) -> (r: bool) {
        compare_text(self.name.as_str(), other.name.as_str()) <= 0
    }
}

/// `dir` joined with the relative path `rest`, as `Path::join` joins them: a
/// separator between the two unless `dir` is empty or already ends in one.
pub open spec fn join_path(dir: Seq<char>, rest: Seq<char>) -> Seq<char> {
    if dir.len() == 0 {
        rest
    } else if dir.last() == '/' {
        dir + rest
    } else {
        dir + "/"@ + rest
    }
}

/// `dir` joined with `src`.
pub fn source_root(dir: &str) -> (r: String)
    ensures
        r@ == join_path(dir@, "src"@),
{
    let len = dir.unicode_len();
    let mut r = String::from_str(dir);
    if len == 0 {
        return String::from_str("src");
    }
    if dir.get_char(len - 1) != '/' {
        push_text(&mut r, "/");
    }
    push_text(&mut r, "src");
    r
}

/// Whether `c` is the crate of package `p`.
pub open spec fn crate_of(c: CrateInfo, p: PackageInfo) -> bool {
    c.name@ == p.name@ && c.src_root@ == join_path(p.manifest_dir@, "src"@)
}

impl Workspace {
    /// The workspace rooted at `root` with the given member packages: one
    /// crate per package, whose sources are under its manifest directory's
    /// `src`, ordered by name.
    pub fn from_packages(root: String, packages: &Vec<PackageInfo>) -> (w: Workspace)
        ensures
            w.root == root,
            exists|crates: Seq<CrateInfo>|
                {
                    &&& crates.len() == packages@.len()
                    &&& forall|i: int|
                        0 <= i < crates.len() ==> crate_of(#[trigger] crates[i], packages@[i])
                    &&& w.crates@ == sort_spec(crates)
                },
    {
        let mut crates: Vec<CrateInfo> = Vec::new();
        let n = packages.len();
        let mut i: usize = 0;
        while i < n
            invariant
                n == packages@.len(),
                i <= n,
                crates@.len() == i,
                forall|k: int| 0 <= k < i ==> crate_of(#[trigger] crates@[k], packages@[k]),
            decreases n - i,
        {
            let p = &packages[i];
            crates.push(
                CrateInfo { name: p.name.clone(), src_root: source_root(p.manifest_dir.as_str()) },
            );
            i = i + 1;
        }
        Workspace { root, crates: sort_stable(crates) }
    }
}

} // verus!
