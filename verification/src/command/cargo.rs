//! The workspace toolchain: which of the packages it reports are artifacts,
//! and the command that builds a set of them.

use crate::database::BinaryPackageSql;
use crate::error::{plain, Error, InnerError, InnerErrorView};
use crate::text::{extend_unique, lemma_strs_push, str_eq, strs, union_names};
use vstd::prelude::*;
use vstd::string::StringExecFns;

verus! {

/// The toolchain of the workspace.
pub struct Cargo;

/// What the toolchain reports of the workspace.
#[derive(Clone, Debug, PartialEq, Eq)]
pub struct ExportInfoMinimal {
    pub packages: Vec<SerializedPackage>,
}

/// One package of the report. Its id is a URL that tells where the source
/// of the package lies.
#[derive(Clone, Debug, PartialEq, Eq)]
pub struct SerializedPackage {
    pub name: String,
    pub id: String,
    pub targets: Vec<TargetInner>,
}

/// One target of a package.
#[derive(Clone, Debug, Hash, PartialEq, Eq, PartialOrd, Ord)]
pub struct TargetInner {
    pub kind: Vec<TargetKind>,
    pub name: String,
    pub bin_name: Option<String>,
}

/// What a target produces.
#[derive(Clone, Debug, Hash, PartialEq, Eq, PartialOrd, Ord)]
pub enum TargetKind {
    Lib,
    Bin,
    Test,
    Bench,
    ExampleLib,
    ExampleBin,
    CustomBuild,
    Other(String),
}

/// An artifact: a package of the workspace that produces an executable.
#[derive(Clone, Debug, PartialEq, Eq)]
pub struct BinaryPackage {
    pub name: String,
    pub id: String,
}

/// The mathematical value of a [`BinaryPackage`]: its name and its id.
impl View for BinaryPackage {
    type V = (Seq<char>, Seq<char>);

    open spec fn view(&self) -> (Seq<char>, Seq<char>) {
        (self.name@, self.id@)
    }
}

/// The views of a list of artifacts.
pub open spec fn bins(v: Seq<BinaryPackage>) -> Seq<(Seq<char>, Seq<char>)> {
    v.map_values(|b: BinaryPackage| b@)
}

/// The error of `url::Url::parse`. Nothing is read of it.
#[verifier::external_type_specification]
#[verifier::external_body]
pub struct ExParseError(url::ParseError);

/// What `url::Url::parse` makes of a text: nothing where the text is no
/// absolute URL, else the serialization of the URL, then its scheme.
pub uninterp spec fn url_parse(text: Seq<char>) -> Option<(Seq<char>, Seq<char>)>;

/// Parses `text` with `url::Url::parse`. On success the pair holds what
/// `Url::as_str` and `Url::scheme` return of the URL; the contract only
/// names that outcome.
#[verifier::external_body]
fn parse_url(text: &str) -> (r: Result<(String, String), url::ParseError>)
    ensures
        match r {
            Ok(parts) => url_parse(text@) == Some((parts.0@, parts.1@)),
            Err(_) => url_parse(text@) is None,
        },
{
    let url = url::Url::parse(text)?;
    Ok((url.as_str().to_owned(), url.scheme().to_owned()))
}

/// Whether one of the targets of `package` is an executable binary.
pub open spec fn has_bin_target(package: SerializedPackage) -> bool {
    exists|i: int, j: int|
        0 <= i < package.targets@.len() && 0 <= j < package.targets@[i].kind@.len()
            && #[trigger] package.targets@[i].kind@[j] is Bin
}

/// Whether a package with the given id scheme is an artifact: it has a
/// binary target and its source is a path of this machine.
pub open spec fn is_artifact(package: SerializedPackage, scheme: Seq<char>) -> bool {
    has_bin_target(package) && scheme == "path+file"@
}

/// The first position from `from` on at which an id is no URL.
pub open spec fn first_bad_id(packages: Seq<SerializedPackage>, from: int) -> Option<int>
    decreases packages.len() - from,
{
    if from < 0 || from >= packages.len() {
        None
    } else if url_parse(packages[from].id@) is None {
        Some(from)
    } else {
        first_bad_id(packages, from + 1)
    }
}

/// The artifacts among the first `n` packages, in their order, each with
/// its id in the form in which the URL is serialized.
pub open spec fn artifacts_of(packages: Seq<SerializedPackage>, n: int) -> Seq<SerializedPackage>
    decreases n,
{
    if n <= 0 || n > packages.len() {
        Seq::empty()
    } else {
        let p = packages[n - 1];
        let rest = artifacts_of(packages, n - 1);
        match url_parse(p.id@) {
            Some(parts) => if is_artifact(p, parts.1) {
                rest.push(p)
            } else {
                rest
            },
            None => rest,
        }
    }
}

/// Whether `out` holds the packages `kept`, each with its id replaced by
/// the serialization of its URL and all else unchanged.
pub open spec fn normalized(out: Seq<SerializedPackage>, kept: Seq<SerializedPackage>) -> bool {
    &&& out.len() == kept.len()
    &&& forall|k: int|
        0 <= k < out.len() ==> {
            &&& (#[trigger] out[k]).name == kept[k].name
            &&& out[k].targets == kept[k].targets
            &&& url_parse(kept[k].id@) matches Some(parts) && out[k].id@ == parts.0
        }
}

/// The command line that builds the given binaries: the word `build`, the
/// flags, each once, then `--bin=` and its name for each binary, each once.
pub open spec fn build_command(binaries: Seq<Seq<char>>, cargo_args: Seq<Seq<char>>) -> Seq<
    Seq<char>,
> {
    seq!["build"@] + union_names(Seq::empty(), cargo_args) + union_names(
        Seq::empty(),
        binaries,
    ).map_values(|b: Seq<char>| "--bin="@ + b)
}

impl SerializedPackage {
    /// Whether one of the targets is an executable binary.
    pub fn has_bin_target(&self) -> (r: bool)
        ensures
            r == has_bin_target(*self),
    {
        let n = self.targets.len();
        let mut i: usize = 0;
        while i < n
            invariant
                n == self.targets.len(),
                0 <= i <= n,
                forall|a: int, b: int|
                    0 <= a < i && 0 <= b < self.targets@[a].kind@.len()
                        ==> !(#[trigger] self.targets@[a].kind@[b] is Bin),
            decreases n - i,
        {
            let kinds = &self.targets[i].kind;
            let m = kinds.len();
            let mut j: usize = 0;
            while j < m
                invariant
                    m == kinds.len(),
                    i < n == self.targets.len(),
                    *kinds == self.targets@[i as int].kind,
                    0 <= j <= m,
                    forall|b: int| 0 <= b < j ==> !(#[trigger] kinds@[b] is Bin),
                decreases m - j,
            {
                match &kinds[j] {
                    TargetKind::Bin => {
                        return true;
                    },
                    _ => {},
                }
                j += 1;
            }
            i += 1;
        }
        false
    }

    /// Whether this package is an artifact, given the scheme of its id.
    pub fn is_artifact(&self, scheme: &str) -> (r: bool)
        ensures
            r == is_artifact(*self, scheme@),
    {
        self.has_bin_target() && str_eq(scheme, "path+file")
    }
}

impl Cargo {
    /// The artifacts among the packages that the toolchain reported: those
    /// with a binary target whose id has the scheme `path+file`, in the
    /// order of the report. Where an id is no URL the report is refused with
    /// `ToolchainFailure`, which carries the first such id.
    pub fn metadata(info: ExportInfoMinimal) -> (r: Result<Vec<SerializedPackage>, Error>)
        ensures
            match first_bad_id(info.packages@, 0) {
                Some(bad) => r is Err && r->Err_0@ == plain(
                    InnerErrorView::ToolchainFailure(info.packages@[bad].id@),
                ),
                None => r is Ok && normalized(
                    r->Ok_0@,
                    artifacts_of(info.packages@, info.packages@.len() as int),
                ),
            },
    {
        let mut packages = info.packages;
        let ghost all = packages@;
        let mut out: Vec<SerializedPackage> = Vec::new();
        let ghost mut done: int = 0;
        while packages.len() > 0
            invariant
                all == info.packages@,
                0 <= done <= all.len(),
                packages@ == all.skip(done),
                first_bad_id(all, 0) == first_bad_id(all, done),
                normalized(out@, artifacts_of(all, done)),
            decreases packages.len(),
        {
            let p = packages.remove(0);
            assert(p == all[done]);
            assert(packages@ =~= all.skip(done + 1));
            match parse_url(p.id.as_str()) {
                Ok(parts) => {
                    if p.is_artifact(parts.1.as_str()) {
                        out.push(SerializedPackage { name: p.name, id: parts.0, targets: p.targets });
                    }
                },
                Err(_) => {
                    return Err(Error::new(InnerError::ToolchainFailure(p.id)));
                },
            }
            proof {
                done = done + 1;
            }
        }
        Ok(out)
    }

    /// The arguments of the one toolchain command that builds `binaries`
    /// with the flags `cargo_args`.
    pub fn build(binaries: &Vec<String>, cargo_args: &Vec<String>) -> (r: Vec<String>)
        ensures
            strs(r@) == build_command(strs(binaries@), strs(cargo_args@)),
    {
        let mut r: Vec<String> = Vec::new();
        r.push("build".to_owned());
        let mut flags: Vec<String> = Vec::new();
        let mut names: Vec<String> = Vec::new();
        assert(strs(flags@) =~= Seq::empty());
        assert(strs(names@) =~= Seq::empty());
        extend_unique(&mut flags, cargo_args);
        extend_unique(&mut names, binaries);
        let mut i: usize = 0;
        while i < flags.len()
            invariant
                0 <= i <= flags.len(),
                strs(r@) == seq!["build"@] + strs(flags@).take(i as int),
            decreases flags.len() - i,
        {
            proof {
                lemma_strs_push(r@, flags@[i as int]);
            }
            r.push(flags[i].clone());
            assert(strs(flags@).take(i as int + 1) =~= strs(flags@).take(i as int).push(
                flags@[i as int]@,
            ));
            assert(strs(r@) =~= seq!["build"@] + strs(flags@).take(i as int + 1));
            i += 1;
        }
        let ghost head = strs(r@);
        assert(head =~= seq!["build"@] + strs(flags@));
        let ghost bin_flags = strs(names@).map_values(|b: Seq<char>| "--bin="@ + b);
        let mut j: usize = 0;
        while j < names.len()
            invariant
                0 <= j <= names.len(),
                bin_flags == strs(names@).map_values(|b: Seq<char>| "--bin="@ + b),
                strs(r@) == head + bin_flags.take(j as int),
            decreases names.len() - j,
        {
            let flag = "--bin=".to_owned().concat(names[j].as_str());
            proof {
                lemma_strs_push(r@, flag);
            }
            r.push(flag);
            assert(bin_flags[j as int] == "--bin="@ + names@[j as int]@);
            assert(bin_flags.take(j as int + 1) =~= bin_flags.take(j as int).push(flag@));
            assert(strs(r@) =~= head + bin_flags.take(j as int + 1));
            j += 1;
        }
        assert(bin_flags.take(names.len() as int) =~= bin_flags);
        r
    }
}

impl BinaryPackage {
    /// The name of the artifact.
    pub fn name(&self) -> (r: &str)
        ensures
            r@ == self@.0,
    {
        self.name.as_str()
    }

    /// The artifact that a reported package stands for.
    pub fn from(value: SerializedPackage) -> (r: BinaryPackage)
        ensures
            r@ == (value.name@, value.id@),
    {
        BinaryPackage { name: value.name, id: value.id }
    }

    /// The artifact that a row of the store stands for. Its id must be a
    /// URL, and is kept in the form in which the URL is serialized; else the
    /// error `Parse` with the id.
    pub fn try_from(value: BinaryPackageSql) -> (r: Result<BinaryPackage, Error>)
        ensures
            match url_parse(value.id@) {
                Some(parts) => r is Ok && r->Ok_0@ == (value.name@, parts.0),
                None => r is Err && r->Err_0@ == plain(InnerErrorView::Parse(value.id@)),
            },
    {
        match parse_url(value.id.as_str()) {
            Ok(parts) => Ok(BinaryPackage { name: value.name, id: parts.0 }),
            Err(_) => Err(Error::new(InnerError::Parse(value.id))),
        }
    }
}

} // verus!
