//! Settings of the four document operations.

use vstd::prelude::*;
use crate::text::{chars_of, push_all, string_of};

verus! {

/// Settings of chapter numbering.
#[derive(Debug, Clone)]
pub struct GenerateChapterConfig {
    pub full_file_path: String,
    pub ignore_h1: bool,
    pub use_chinese_number: bool,
    pub use_arabic_number_for_sublevel: bool,
    pub save_as_new_file: bool,
    pub new_full_file_path: Option<String>,
}

/// Settings of numbering removal.
#[derive(Debug, Clone)]
pub struct RemoveChapterConfig {
    pub full_file_path: String,
    pub save_as_new_file: bool,
    pub new_full_file_path: Option<String>,
}

/// Settings of heading validation.
#[derive(Debug, Clone)]
pub struct CheckHeadingConfig {
    pub full_file_path: String,
}

/// Settings of image localisation.
#[derive(Debug, Clone)]
pub struct LocalizeImagesConfig {
    pub full_file_path: String,
    pub image_file_name_pattern: String,
    pub save_to_dir: String,
}

/// The placeholder in `save_to_dir` for the directory of the document.
pub open spec fn dir_placeholder() -> Seq<char> {
    "{full_dir_of_original_file}"@
}

/// `pat` occurs in `s` at index `i`.
pub open spec fn occurs_at(s: Seq<char>, pat: Seq<char>, i: int) -> bool {
    0 <= i && i + pat.len() <= s.len() && s.subrange(i, i + pat.len()) == pat
}

/// `s` with every occurrence of the non-empty `pat`, read left to right and
/// without overlap, replaced by `rep`.
pub open spec fn replace_all(s: Seq<char>, pat: Seq<char>, rep: Seq<char>) -> Seq<char>
    decreases s.len(),
{
    if s.len() == 0 || pat.len() == 0 {
        s
    } else if occurs_at(s, pat, 0) {
        rep + replace_all(s.subrange(pat.len() as int, s.len() as int), pat, rep)
    } else {
        seq![s[0]] + replace_all(s.drop_first(), pat, rep)
    }
}

/// The directory part of a path as `std::path::Path::parent` gives it on
/// the target the crate is built for (separators and roots differ between
/// Unix and Windows), or `None` where the path ends in a root or prefix or is
/// empty.
pub uninterp spec fn parent_of(path: Seq<char>) -> Option<Seq<char>>;

/// The directory a document's images are placed under by default: the
/// directory part of its path, or `.` where the path has none.
pub open spec fn document_dir(path: Seq<char>) -> Seq<char> {
    match parent_of(path) {
        Some(d) => d,
        None => "."@,
    }
}

/// Relies on `std::path::Path::parent`: the directory part of `path`; on one
/// target the result depends on the path's characters alone.
#[verifier::external_body]
fn path_parent(path: &str) -> (r: Option<String>)
    ensures
        match r {
            Some(d) => parent_of(path@) == Some(d@),
            None => parent_of(path@) is None,
        },
{
    match std::path::Path::new(path).parent() {
        Some(p) => Some(p.to_string_lossy().into_owned()),
        None => None,
    }
}

fn occurs_at_exec(s: &Vec<char>, pat: &Vec<char>, i: usize) -> (r: bool)
    requires
        i <= s@.len(),
    ensures
        r == occurs_at(s@, pat@, i as int),
{
    if pat.len() > s.len() - i {
        return false;
    }
    assert(s@.len() == s.len());
    let mut j: usize = 0;
    while j < pat.len()
        invariant
            j <= pat@.len(),
            i + pat@.len() <= s@.len(),
            s@.len() <= usize::MAX,
            forall|k: int| 0 <= k < j ==> s@[i + k] == pat@[k],
        decreases pat@.len() - j,
    {
        if s[i + j] != pat[j] {
            assert(s@.subrange(i as int, i + pat@.len())[j as int] == s@[i + j]);
            return false;
        }
        j = j + 1;
    }
    assert(s@.subrange(i as int, i + pat@.len()) =~= pat@);
    true
}

/// `save_to_dir` with every placeholder for the document's directory replaced
/// by `dir`; unchanged when it holds none.
pub fn fill_dir_placeholder(save_to_dir: &str, dir: &str) -> (r: String)
    ensures
        (exists|i: int| occurs_at(save_to_dir@, dir_placeholder(), i)) ==> r@ == replace_all(
            save_to_dir@,
            dir_placeholder(),
            dir@,
        ),
        !(exists|i: int| occurs_at(save_to_dir@, dir_placeholder(), i)) ==> r@ == save_to_dir@,
{
    let s = chars_of(save_to_dir);
    let pat = chars_of("{full_dir_of_original_file}");
    proof {
        reveal_strlit("{full_dir_of_original_file}");
    }
    if !contains_at_some(&s, &pat) {
        return string_of(s);
    }
    let dir = chars_of(dir);
    let mut out: Vec<char> = Vec::new();
    let mut j: usize = 0;
    assert(s@.subrange(0, s@.len() as int) =~= s@);
    while j < s.len()
        invariant
            j <= s@.len(),
            pat@ == dir_placeholder(),
            pat@.len() > 0,
            out@ + replace_all(s@.subrange(j as int, s@.len() as int), pat@, dir@) == replace_all(
                s@,
                pat@,
                dir@,
            ),
        decreases s@.len() - j,
    {
        let ghost rest = s@.subrange(j as int, s@.len() as int);
        if occurs_at_exec(&s, &pat, j) {
            assert(rest.subrange(0, pat@.len() as int) =~= s@.subrange(j as int, j + pat@.len()));
            assert(rest.subrange(pat@.len() as int, rest.len() as int) =~= s@.subrange(
                j + pat@.len(),
                s@.len() as int,
            ));
            let ghost before = out@;
            push_all(&mut out, &dir);
            j = j + pat.len();
            assert(out@ + replace_all(s@.subrange(j as int, s@.len() as int), pat@, dir@) =~= before
                + replace_all(rest, pat@, dir@));
        } else {
            assert(!occurs_at(rest, pat@, 0)) by {
                if occurs_at(rest, pat@, 0) {
                    assert(rest.subrange(0, pat@.len() as int) =~= s@.subrange(
                        j as int,
                        j + pat@.len(),
                    ));
                }
            }
            assert(rest.drop_first() =~= s@.subrange(j + 1, s@.len() as int));
            let ghost before = out@;
            out.push(s[j]);
            j = j + 1;
            assert(out@ + replace_all(s@.subrange(j as int, s@.len() as int), pat@, dir@) =~= before
                + replace_all(rest, pat@, dir@));
        }
    }
    assert(s@.subrange(j as int, s@.len() as int) =~= Seq::<char>::empty());
    assert(out@ =~= replace_all(s@, pat@, dir@));
    string_of(out)
}

/// Whether `pat`, which is not empty, occurs anywhere in `s`.
fn contains_at_some(s: &Vec<char>, pat: &Vec<char>) -> (r: bool)
    requires
        pat@.len() > 0,
    ensures
        r == exists|i: int| occurs_at(s@, pat@, i),
{
    let mut i: usize = 0;
    while i < s.len()
        invariant
            i <= s@.len(),
            forall|k: int| 0 <= k < i ==> !occurs_at(s@, pat@, k),
        decreases s@.len() - i,
    {
        if occurs_at_exec(s, pat, i) {
            return true;
        }
        i = i + 1;
    }
    assert forall|k: int| !occurs_at(s@, pat@, k) by {
        if k >= i && occurs_at(s@, pat@, k) {
            assert(k + pat@.len() <= s@.len());
        }
    }
    false
}

impl LocalizeImagesConfig {
    /// `save_to_dir` with the document-directory placeholder filled in with
    /// the directory of `full_file_path`.
    pub fn get_resolved_save_dir(&self) -> (r: String)
        ensures
            (exists|i: int| occurs_at(self.save_to_dir@, dir_placeholder(), i)) ==> r@ == replace_all(
                self.save_to_dir@,
                dir_placeholder(),
                document_dir(self.full_file_path@),
            ),
            !(exists|i: int| occurs_at(self.save_to_dir@, dir_placeholder(), i)) ==> r@
                == self.save_to_dir@,
    {
        let dir = match path_parent(self.full_file_path.as_str()) {
            Some(d) => d,
            None => string_of(chars_of(".")),
        };
        fill_dir_placeholder(self.save_to_dir.as_str(), dir.as_str())
    }
}

} // verus!
