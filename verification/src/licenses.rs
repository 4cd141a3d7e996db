//! The declared-license field of a package and the license-evidence model:
//! a declared expression decomposed into atomic identifiers, plus file
//! evidence found on disk or referenced explicitly by the manifest.

use vstd::prelude::*;
use vstd::string::{StrSliceExecFns, StringExecFns};
use core::cmp::Ordering;
use crate::text::{has_prefix, join_path, lemma_lex_cmp_eq, str_cmp};

verus! {

/// A separator between atomic identifiers in a declared expression.
pub open spec fn is_sep(c: char) -> bool {
    c == ' ' || c == '/'
}

/// One step of splitting `s` at separators: `i` is the next position,
/// `cur` the identifier being accumulated, `acc` the identifiers found.
pub open spec fn split_step(s: Seq<char>, i: int, cur: Seq<char>, acc: Seq<Seq<char>>) -> Seq<
    Seq<char>,
>
    decreases s.len() - i,
    when 0 <= i <= s.len()
{
    if i >= s.len() {
        if cur.len() > 0 {
            acc.push(cur)
        } else {
            acc
        }
    } else if is_sep(s[i]) {
        if cur.len() > 0 {
            split_step(s, i + 1, Seq::empty(), acc.push(cur))
        } else {
            split_step(s, i + 1, Seq::empty(), acc)
        }
    } else {
        split_step(s, i + 1, cur.push(s[i]), acc)
    }
}

/// The maximal separator-free pieces of `s`, in order.
pub open spec fn tokens_of(s: Seq<char>) -> Seq<Seq<char>> {
    split_step(s, 0, Seq::empty(), Seq::empty())
}

/// A boolean connective of a license expression, not an identifier itself.
pub open spec fn is_connective(t: Seq<char>) -> bool {
    t == seq!['O', 'R'] || t == seq!['A', 'N', 'D']
}

/// The atomic license identifiers of a declared expression.
pub open spec fn license_ids_of(s: Seq<char>) -> Seq<Seq<char>> {
    tokens_of(s).filter(|t: Seq<char>| !is_connective(t))
}

/// The expression uses no grouping, so the flat decomposition is faithful.
pub open spec fn no_parens(s: Seq<char>) -> bool {
    forall|i: int| 0 <= i < s.len() ==> s[i] != '(' && s[i] != ')'
}

/// The shape of a declared-license field: absent, decomposed into atomic
/// identifiers, or kept opaque because the expression was not recognized.
pub enum LicenseFieldView {
    Absent,
    Ids(Seq<Seq<char>>),
    Unrecognized(Seq<char>),
}

/// How a raw declared string is normalized into the field.
pub open spec fn parse_license_field(s: Seq<char>) -> LicenseFieldView {
    if no_parens(s) && license_ids_of(s).len() > 0 {
        LicenseFieldView::Ids(license_ids_of(s))
    } else {
        LicenseFieldView::Unrecognized(s)
    }
}

/// A package's declared license expression in normalized form. Produced
/// once when the record is created and never mutated afterwards.
#[derive(Debug, Clone, PartialEq, Eq)]
pub enum LicenseField {
    Absent,
    Ids(Vec<String>),
    Unrecognized(String),
}

impl View for LicenseField {
    type V = LicenseFieldView;

    open spec fn view(&self) -> LicenseFieldView {
        match self {
            LicenseField::Absent => LicenseFieldView::Absent,
            LicenseField::Ids(ids) => LicenseFieldView::Ids(
                ids@.map_values(|t: String| t@),
            ),
            LicenseField::Unrecognized(s) => LicenseFieldView::Unrecognized(s@),
        }
    }
}

impl Default for LicenseField {
    /// An undeclared license: no identifiers, no opaque original.
    fn default() -> (r: Self)
        ensures
            r@ is Absent,
    {
        LicenseField::Absent
    }
}

/// The views of a sequence of strings.
pub open spec fn str_views(v: Seq<String>) -> Seq<Seq<char>> {
    v.map_values(|t: String| t@)
}

/// Whether the string equals the two-letter connective `OR`.
fn is_or(t: &str) -> (r: bool)
    ensures
        r == (t@ == seq!['O', 'R']),
{
    let c = str_cmp(t, "OR");
    proof {
        reveal_strlit("OR");
        assert("OR"@ =~= seq!['O', 'R']);
        lemma_lex_cmp_eq(t@, "OR"@);
    }
    matches!(c, Ordering::Equal)
}

/// Whether the string equals the three-letter connective `AND`.
fn is_and(t: &str) -> (r: bool)
    ensures
        r == (t@ == seq!['A', 'N', 'D']),
{
    let c = str_cmp(t, "AND");
    proof {
        reveal_strlit("AND");
        assert("AND"@ =~= seq!['A', 'N', 'D']);
        lemma_lex_cmp_eq(t@, "AND"@);
    }
    matches!(c, Ordering::Equal)
}

/// Split a declared expression into its separator-free tokens.
fn tokenize(s: &str) -> (r: Vec<String>)
    ensures
        str_views(r@) == tokens_of(s@),
{
    let len = s.unicode_len();
    let mut toks: Vec<String> = Vec::new();
    let mut start: usize = 0;
    let mut i: usize = 0;
    proof {
        assert(s@.subrange(0, 0) =~= Seq::<char>::empty());
        assert(str_views(toks@) =~= Seq::<Seq<char>>::empty());
    }
    while i < len
        invariant
            len == s@.len(),
            start <= i <= len,
            tokens_of(s@) == split_step(
                s@,
                i as int,
                s@.subrange(start as int, i as int),
                str_views(toks@),
            ),
        decreases len - i,
    {
        let ghost cur = s@.subrange(start as int, i as int);
        let c = s.get_char(i);
        if c == ' ' || c == '/' {
            if start < i {
                let t = s.substring_char(start, i).to_owned();
                proof {
                    assert(t@ == cur);
                    assert(str_views(toks@.push(t)) =~= str_views(toks@).push(cur));
                }
                toks.push(t);
            }
            start = i + 1;
            proof {
                assert(s@.subrange(start as int, i + 1) =~= Seq::<char>::empty());
            }
        } else {
            proof {
                assert(s@.subrange(start as int, i + 1) =~= cur.push(s@[i as int]));
            }
        }
        i = i + 1;
    }
    let ghost cur = s@.subrange(start as int, i as int);
    if start < len {
        let t = s.substring_char(start, len).to_owned();
        proof {
            assert(t@ == cur);
            assert(str_views(toks@.push(t)) =~= str_views(toks@).push(cur));
        }
        toks.push(t);
    }
    toks
}

impl LicenseField {
    /// Normalize a raw declared string: decompose it into atomic
    /// identifiers unless the expression uses grouping or yields none,
    /// in which case the original is kept opaque.
    pub fn new(lf: String) -> (r: Self)
        ensures
            r@ == parse_license_field(lf@),
    {
        let len = lf.as_str().unicode_len();
        let mut i: usize = 0;
        while i < len
            invariant
                len == lf@.len(),
                i <= len,
                forall|k: int| 0 <= k < i ==> lf@[k] != '(' && lf@[k] != ')',
            decreases len - i,
        {
            let c = lf.as_str().get_char(i);
            if c == '(' || c == ')' {
                return LicenseField::Unrecognized(lf);
            }
            i = i + 1;
        }
        let toks = tokenize(lf.as_str());
        let pred = Ghost(|t: Seq<char>| !is_connective(t));
        let mut ids: Vec<String> = Vec::new();
        let mut k: usize = 0;
        proof {
            reveal(Seq::filter);
            assert(str_views(toks@).take(0) =~= Seq::<Seq<char>>::empty());
            assert(str_views(ids@) =~= Seq::<Seq<char>>::empty());
        }
        while k < toks.len()
            invariant
                k <= toks@.len(),
                str_views(ids@) == str_views(toks@).take(k as int).filter(pred@),
                pred == Ghost(|t: Seq<char>| !is_connective(t)),
            decreases toks@.len() - k,
        {
            let keep = !(is_or(toks[k].as_str()) || is_and(toks[k].as_str()));
            proof {
                reveal(Seq::filter);
                let tv = str_views(toks@);
                assert(tv.take(k + 1).drop_last() =~= tv.take(k as int));
                assert(tv.take(k + 1).last() == toks@[k as int]@);
            }
            if keep {
                let t = toks[k].clone();
                proof {
                    assert(str_views(ids@.push(t)) =~= str_views(ids@).push(t@));
                }
                ids.push(t);
            }
            k = k + 1;
        }
        proof {
            assert(str_views(toks@).take(toks@.len() as int) =~= str_views(toks@));
        }
        if ids.len() == 0 {
            LicenseField::Unrecognized(lf)
        } else {
            LicenseField::Ids(ids)
        }
    }
}

/// One piece of evidence bearing on what license applies to a record:
/// an identifier from the declared metadata, a file discovered by scanning
/// the record's root directory, or the file the manifest names explicitly.
#[derive(Debug, Clone, PartialEq, Eq)]
pub enum LicenseInfo {
    Metadata(String),
    InferredLicenseFile(String),
    ExplicitLicenseFile(String),
}

/// The shape of one piece of evidence.
pub enum LicenseInfoView {
    Metadata(Seq<char>),
    InferredLicenseFile(Seq<char>),
    ExplicitLicenseFile(Seq<char>),
}

impl View for LicenseInfo {
    type V = LicenseInfoView;

    open spec fn view(&self) -> LicenseInfoView {
        match self {
            LicenseInfo::Metadata(s) => LicenseInfoView::Metadata(s@),
            LicenseInfo::InferredLicenseFile(s) => LicenseInfoView::InferredLicenseFile(s@),
            LicenseInfo::ExplicitLicenseFile(s) => LicenseInfoView::ExplicitLicenseFile(s@),
        }
    }
}

/// The views of a sequence of evidence items.
pub open spec fn info_views(v: Seq<LicenseInfo>) -> Seq<LicenseInfoView> {
    v.map_values(|e: LicenseInfo| e@)
}

/// The file name prefix that marks a directory entry as license evidence.
pub open spec fn license_prefix() -> Seq<char> {
    seq!['L', 'I', 'C', 'E', 'N', 'S', 'E']
}

/// Declared evidence: one item per atomic identifier, in field order; the
/// opaque original when the expression was not recognized; nothing when
/// no license was declared.
pub open spec fn declared_items(f: LicenseFieldView) -> Seq<LicenseInfoView> {
    match f {
        LicenseFieldView::Absent => Seq::empty(),
        LicenseFieldView::Ids(ids) => ids.map_values(|t: Seq<char>| LicenseInfoView::Metadata(t)),
        LicenseFieldView::Unrecognized(s) => seq![LicenseInfoView::Metadata(s)],
    }
}

/// The explicitly referenced license file, present only when the record
/// has both a root directory and a declared license-file reference.
pub open spec fn explicit_path(root: Option<Seq<char>>, lf: Option<Seq<char>>) -> Option<
    Seq<char>,
> {
    match (root, lf) {
        (Some(r), Some(f)) => Some(join_path(r, f)),
        _ => None,
    }
}

/// Inferred evidence from a directory listing: one item per regular file
/// whose name starts with the license prefix, joined onto the root, except
/// the path equal to the explicitly referenced file.
pub open spec fn inferred_items(
    files: Seq<Seq<char>>,
    root: Seq<char>,
    explicit: Option<Seq<char>>,
) -> Seq<LicenseInfoView>
    decreases files.len(),
{
    if files.len() == 0 {
        Seq::empty()
    } else {
        let rest = inferred_items(files.drop_last(), root, explicit);
        let f = files.last();
        if has_prefix(f, license_prefix()) && Some(join_path(root, f)) != explicit {
            rest.push(LicenseInfoView::InferredLicenseFile(join_path(root, f)))
        } else {
            rest
        }
    }
}

/// The full evidence sequence for a record: declared items, then inferred
/// files, then the explicit file, in that order. Without a root directory
/// only declared items appear, whatever else is set.
pub open spec fn evidence_seq(
    field: LicenseFieldView,
    root: Option<Seq<char>>,
    lf: Option<Seq<char>>,
    files: Seq<Seq<char>>,
) -> Seq<LicenseInfoView> {
    let ex = explicit_path(root, lf);
    declared_items(field) + (match root {
        Some(r) => inferred_items(files, r, ex),
        None => Seq::empty(),
    }) + (match ex {
        Some(p) => seq![LicenseInfoView::ExplicitLicenseFile(p)],
        None => Seq::empty(),
    })
}

/// A record with no root directory yields declared evidence only, even
/// when a license-file reference is set.
pub proof fn lemma_no_root_only_declared(
    field: LicenseFieldView,
    lf: Option<Seq<char>>,
    files: Seq<Seq<char>>,
)
    ensures
        evidence_seq(field, None, lf, files) == declared_items(field),
{
    assert(evidence_seq(field, None, lf, files) =~= declared_items(field));
}

} // verus!
