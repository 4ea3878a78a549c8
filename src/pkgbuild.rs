//! Reading the version and name fields of a build recipe.
use vstd::prelude::*;
use crate::text::{lines_spec, split_lines, starts_with, trim_spec, trim_str};

verus! {

/// The version of a package: its `pkgver` and its `pkgrel`.
#[derive(Debug, Clone, PartialEq, Eq)]
pub struct PackageVersion {
    pub pkgver: String,
    pub pkgrel: String,
}

/// Why the fields of a recipe could not be read.
#[derive(Debug, Clone, Copy, PartialEq, Eq, Structural)]
pub enum RecipeError {
    /// No `pkgver` value was found.
    MissingVersion,
    /// No `pkgrel` value was found.
    MissingRelease,
    /// The `pkgver` value is empty.
    EmptyVersion,
    /// The `pkgrel` value is empty.
    EmptyRelease,
    /// The `pkgname` value is empty.
    EmptyName,
}

/// `version-release`.
pub open spec fn version_string_spec(pkgver: Seq<char>, pkgrel: Seq<char>) -> Seq<char> {
    pkgver + seq!['-'] + pkgrel
}

impl PackageVersion {
    /// The version and the release joined by one hyphen.
    pub fn to_string(&self) -> (r: String)
        ensures
            r@ == version_string_spec(self.pkgver@, self.pkgrel@),
    {
        let mut r = self.pkgver.clone();
        r.append("-");
        r.append(self.pkgrel.as_str());
        proof {
            reveal_strlit("-");
        }
        r
    }
}

/// `v` without one pair of matching surrounding quotes, double or single.
pub open spec fn unquote_spec(v: Seq<char>) -> Seq<char> {
    if v.len() >= 2 && ((v[0] == '"' && v.last() == '"') || (v[0] == '\'' && v.last() == '\'')) {
        v.subrange(1, v.len() - 1)
    } else {
        v
    }
}

/// The value of the assignment `line`, whose key part is `prefix`.
pub open spec fn value_spec(line: Seq<char>, prefix: Seq<char>) -> Seq<char> {
    unquote_spec(trim_spec(line.subrange(prefix.len() as int, line.len() as int)))
}

/// The value of the simple shell assignment `line`, which starts with `prefix`:
/// what follows the prefix, trimmed, without one pair of surrounding quotes.
pub fn extract_value(line: &str, prefix: &str) -> (r: String)
    requires
        prefix@.is_prefix_of(line@),
    ensures
        r@ == value_spec(line@, prefix@),
{
    let n = line.unicode_len();
    let m = prefix.unicode_len();
    let value = trim_str(line.substring_char(m, n));
    let len = value.unicode_len();
    if len >= 2 {
        let first = value.get_char(0);
        let last = value.get_char(len - 1);
        if (first == '"' && last == '"') || (first == '\'' && last == '\'') {
            return String::from_str(value.substring_char(1, len - 1));
        }
    }
    String::from_str(value)
}

/// The value of the last line of `lines` that, once trimmed, is an
/// assignment to the key `key` (such as `pkgver=`).
pub open spec fn last_value_spec(lines: Seq<Seq<char>>, key: Seq<char>) -> Option<Seq<char>>
    decreases lines.len(),
{
    if lines.len() == 0 {
        None
    } else {
        let t = trim_spec(lines.last());
        if key.is_prefix_of(t) {
            Some(value_spec(t, key))
        } else {
            last_value_spec(lines.drop_last(), key)
        }
    }
}

pub open spec fn version_key() -> Seq<char> {
    "pkgver="@
}

pub open spec fn release_key() -> Seq<char> {
    "pkgrel="@
}

/// The version and release that a static scan of the recipe text `content`
/// finds: the last simple assignment to each.
pub open spec fn simple_version_spec(content: Seq<char>) -> Result<
    (Seq<char>, Seq<char>),
    RecipeError,
> {
    let lines = lines_spec(content);
    match last_value_spec(lines, version_key()) {
        None => Err(RecipeError::MissingVersion),
        Some(v) => match last_value_spec(lines, release_key()) {
            None => Err(RecipeError::MissingRelease),
            Some(r) => Ok((v, r)),
        },
    }
}

/// What a result means as version and release values.
pub open spec fn version_result_view(r: Result<PackageVersion, RecipeError>) -> Result<
    (Seq<char>, Seq<char>),
    RecipeError,
> {
    match r {
        Ok(v) => Ok((v.pkgver@, v.pkgrel@)),
        Err(e) => Err(e),
    }
}

pub open spec fn opt_string_view(o: Option<String>) -> Option<Seq<char>> {
    match o {
        Some(s) => Some(s@),
        None => None,
    }
}

/// Reads `pkgver` and `pkgrel` from the recipe text `content` without running
/// it: only lines of the form `key=value` count, and the last one of each key
/// wins. Comment lines and blank lines never start with a key.
pub fn parse_version_simple(content: &str) -> (r: Result<PackageVersion, RecipeError>)
    ensures
        version_result_view(r) == simple_version_spec(content@),
{
    let lines = split_lines(content);
    let ghost ls = lines_spec(content@);
    let ver_key = "pkgver=";
    let rel_key = "pkgrel=";
    let mut pkgver: Option<String> = None;
    let mut pkgrel: Option<String> = None;
    let mut i: usize = 0;
    proof {
        assert(ls.subrange(0, 0) =~= Seq::<Seq<char>>::empty());
    }
    while i < lines.len()
        invariant
            lines@.len() == ls.len(),
            forall|k: int| 0 <= k < lines@.len() ==> #[trigger] lines@[k]@ == ls[k],
            i <= lines@.len(),
            ver_key@ == version_key(),
            rel_key@ == release_key(),
            opt_string_view(pkgver) == last_value_spec(ls.subrange(0, i as int), version_key()),
            opt_string_view(pkgrel) == last_value_spec(ls.subrange(0, i as int), release_key()),
        decreases lines@.len() - i,
    {
        let line = trim_str(lines[i].as_str());
        proof {
            assert(lines@[i as int]@ == ls[i as int]);
            assert(ls.subrange(0, i as int + 1).drop_last() =~= ls.subrange(0, i as int));
            assert(ls.subrange(0, i as int + 1).last() == ls[i as int]);
        }
        if starts_with(line, ver_key) {
            pkgver = Some(extract_value(line, ver_key));
        }
        if starts_with(line, rel_key) {
            pkgrel = Some(extract_value(line, rel_key));
        }
        i = i + 1;
    }
    proof {
        assert(ls.subrange(0, lines@.len() as int) =~= ls);
    }
    match pkgver {
        None => Err(RecipeError::MissingVersion),
        Some(v) => match pkgrel {
            None => Err(RecipeError::MissingRelease),
            Some(r) => Ok(PackageVersion { pkgver: v, pkgrel: r }),
        },
    }
}

/// The version and release from what a shell printed after sourcing a
/// recipe: its first line is `pkgver`, its second `pkgrel`, both trimmed.
pub open spec fn version_output_spec(out: Seq<char>) -> Result<(Seq<char>, Seq<char>), RecipeError> {
    let lines = lines_spec(out);
    if lines.len() < 1 {
        Err(RecipeError::MissingVersion)
    } else if lines.len() < 2 {
        Err(RecipeError::MissingRelease)
    } else if trim_spec(lines[0]).len() == 0 {
        Err(RecipeError::EmptyVersion)
    } else if trim_spec(lines[1]).len() == 0 {
        Err(RecipeError::EmptyRelease)
    } else {
        Ok((trim_spec(lines[0]), trim_spec(lines[1])))
    }
}

/// Reads the version from the output of a shell that sourced a recipe and
/// printed `pkgver` and `pkgrel` on a line each.
pub fn parse_version_output(out: &str) -> (r: Result<PackageVersion, RecipeError>)
    ensures
        version_result_view(r) == version_output_spec(out@),
{
    let lines = split_lines(out);
    if lines.len() < 1 {
        return Err(RecipeError::MissingVersion);
    }
    if lines.len() < 2 {
        return Err(RecipeError::MissingRelease);
    }
    let pkgver = trim_str(lines[0].as_str());
    let pkgrel = trim_str(lines[1].as_str());
    proof {
        assert(lines@[0]@ == lines_spec(out@)[0]);
        assert(lines@[1]@ == lines_spec(out@)[1]);
    }
    if pkgver.unicode_len() == 0 {
        return Err(RecipeError::EmptyVersion);
    }
    if pkgrel.unicode_len() == 0 {
        return Err(RecipeError::EmptyRelease);
    }
    Ok(PackageVersion { pkgver: String::from_str(pkgver), pkgrel: String::from_str(pkgrel) })
}

/// Reads the package name from the output of a shell that sourced a recipe
/// and printed `pkgname`: the whole output, trimmed, which must not be empty.
pub fn parse_pkgname_output(out: &str) -> (r: Result<String, RecipeError>)
    ensures
        trim_spec(out@).len() == 0 ==> r == Err::<String, RecipeError>(RecipeError::EmptyName),
        trim_spec(out@).len() > 0 ==> r is Ok && r->Ok_0@ == trim_spec(out@),
{
    let name = trim_str(out);
    if name.unicode_len() == 0 {
        Err(RecipeError::EmptyName)
    } else {
        Ok(String::from_str(name))
    }
}

} // verus!
