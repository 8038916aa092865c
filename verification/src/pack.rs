//! Content packs: their manifests, the rules a manifest obeys and the scan that collects them.
use crate::text::{
    sorts_before, sorts_before_asymmetric, sorts_before_total, sorts_before_transitive, text_before,
};
use vstd::prelude::*;
use vstd::string::StringExecFns;

verus! {

/// Whether a text is a version in the syntax of the `semver` crate.
pub uninterp spec fn version_parses(text: Seq<char>) -> bool;

/// Whether a text is a version requirement in the syntax of the `semver` crate.
pub uninterp spec fn requirement_parses(text: Seq<char>) -> bool;

/// Whether the version that the second text spells meets the requirement of the first.
pub uninterp spec fn requirement_admits(requirement: Seq<char>, version: Seq<char>) -> bool;

/// `semver::Version::parse`: whether it accepts the text.
#[verifier::external_body]
fn is_version(text: &str) -> (ok: bool)
    ensures
        ok == version_parses(text@),
{
    semver::Version::parse(text).is_ok()
}

/// `semver::VersionReq::parse`: whether it accepts the text.
#[verifier::external_body]
fn is_requirement(text: &str) -> (ok: bool)
    ensures
        ok == requirement_parses(text@),
{
    semver::VersionReq::parse(text).is_ok()
}

/// `semver::VersionReq::matches` on the requirement and the version that the two texts spell.
/// The result depends on the two texts alone.
#[verifier::external_body]
fn requirement_matches(requirement: &str, version: &str) -> (ok: bool)
    requires
        requirement_parses(requirement@),
        version_parses(version@),
    ensures
        ok == requirement_admits(requirement@, version@),
{
    let req = semver::VersionReq::parse(requirement).unwrap();
    let ver = semver::Version::parse(version).unwrap();
    req.matches(&ver)
}

/// A text as std writes it for debugging: between quotation marks, with escapes.
pub uninterp spec fn quoted(text: Seq<char>) -> Seq<char>;

/// Writes a text as std's `Debug` for `str` does. The claim is that the result depends on the text
/// alone.
#[verifier::external_body]
fn quote(text: &str) -> (s: String)
    ensures
        s@ == quoted(text@),
{
    format!("{:?}", text)
}

/// What is wrong with packs or with their order.
#[derive(Debug)]
pub enum PackError {
    /// The manifest is not a package description.
    Malformed,
    /// The version is not a semantic version.
    BadVersion { version: String },
    /// A version requirement of a manifest cannot be read; the subject tells whether it is one on
    /// a dependency or on a conflict, and with which pack.
    BadRequirement { subject: String, requirement: String },
    /// A version requirement that is compared cannot be read.
    UnreadableRequirement { requirement: String },
    /// A version that is compared cannot be read.
    UnreadableVersion { version: String },
    /// There is not a single valid pack below the root.
    NoPacks { root: String },
    /// Dependencies run in a circle; the last pack of the trace occurs in it before.
    Cycle { trace: Vec<String> },
    /// A pack depends on one that is not there.
    MissingDependency { pack: String, dependency: String },
    /// A pack that has to be placed depends on one that is not there.
    UnmetDependency { pack: String, dependency: String },
    /// The order names a pack that is not there.
    UnknownPack { pack: String },
    /// The dependency that is there has a version that was not asked for.
    VersionMismatch { pack: String, dependency: String, requirement: String, version: String },
    /// A dependency comes after the pack that needs it.
    WrongOrder { pack: String, dependency: String },
    /// A dependency is there but not enabled.
    NotEnabled { pack: String, dependency: String },
    /// Two packs exclude each other.
    Conflict { pack: String, other: String, requirement: String },
}

/// The meaning of a [`PackError`].
pub enum PackIssue {
    Malformed,
    BadVersion { version: Seq<char> },
    BadRequirement { subject: Seq<char>, requirement: Seq<char> },
    UnreadableRequirement { requirement: Seq<char> },
    UnreadableVersion { version: Seq<char> },
    NoPacks { root: Seq<char> },
    Cycle { trace: Seq<Seq<char>> },
    MissingDependency { pack: Seq<char>, dependency: Seq<char> },
    UnmetDependency { pack: Seq<char>, dependency: Seq<char> },
    UnknownPack { pack: Seq<char> },
    VersionMismatch {
        pack: Seq<char>,
        dependency: Seq<char>,
        requirement: Seq<char>,
        version: Seq<char>,
    },
    WrongOrder { pack: Seq<char>, dependency: Seq<char> },
    NotEnabled { pack: Seq<char>, dependency: Seq<char> },
    Conflict { pack: Seq<char>, other: Seq<char>, requirement: Seq<char> },
}

impl View for PackError {
    type V = PackIssue;

    open spec fn view(&self) -> PackIssue {
        match self {
            PackError::Malformed => PackIssue::Malformed,
            PackError::BadVersion { version } => PackIssue::BadVersion { version: version@ },
            PackError::BadRequirement { subject, requirement } => PackIssue::BadRequirement {
                subject: subject@,
                requirement: requirement@,
            },
            PackError::UnreadableRequirement { requirement } => PackIssue::UnreadableRequirement {
                requirement: requirement@,
            },
            PackError::UnreadableVersion { version } => PackIssue::UnreadableVersion {
                version: version@,
            },
            PackError::NoPacks { root } => PackIssue::NoPacks { root: root@ },
            PackError::Cycle { trace } => PackIssue::Cycle { trace: crate::text::texts(trace@) },
            PackError::MissingDependency { pack, dependency } => PackIssue::MissingDependency {
                pack: pack@,
                dependency: dependency@,
            },
            PackError::UnmetDependency { pack, dependency } => PackIssue::UnmetDependency {
                pack: pack@,
                dependency: dependency@,
            },
            PackError::UnknownPack { pack } => PackIssue::UnknownPack { pack: pack@ },
            PackError::VersionMismatch { pack, dependency, requirement, version } =>
                PackIssue::VersionMismatch {
                pack: pack@,
                dependency: dependency@,
                requirement: requirement@,
                version: version@,
            },
            PackError::WrongOrder { pack, dependency } => PackIssue::WrongOrder {
                pack: pack@,
                dependency: dependency@,
            },
            PackError::NotEnabled { pack, dependency } => PackIssue::NotEnabled {
                pack: pack@,
                dependency: dependency@,
            },
            PackError::Conflict { pack, other, requirement } => PackIssue::Conflict {
                pack: pack@,
                other: other@,
                requirement: requirement@,
            },
        }
    }
}

/// The texts joined with an arrow between each two.
pub open spec fn arrowed(trace: Seq<Seq<char>>) -> Seq<char>
    decreases trace.len(),
{
    if trace.len() == 0 {
        seq![]
    } else if trace.len() == 1 {
        trace[0]
    } else {
        arrowed(trace.drop_last()) + " → "@ + trace.last()
    }
}

impl PackIssue {
    /// The sentence that reports the issue.
    pub open spec fn sentence(self) -> Seq<char> {
        match self {
            PackIssue::Malformed => "package.toml 解析失败"@,
            PackIssue::BadVersion { version } => "version=\""@ + version + "\" 不是合法 semver"@,
            PackIssue::BadRequirement { subject, requirement } => subject + " 的版本要求 "@
                + quoted(requirement) + " 非法"@,
            PackIssue::UnreadableRequirement { requirement } => "非法版本要求："@ + quoted(
                requirement,
            ),
            PackIssue::UnreadableVersion { version } => "非法包版本："@ + quoted(version),
            PackIssue::NoPacks { root } => root + " 下没有任何有效资源包"@,
            PackIssue::Cycle { trace } => "资源包依赖存在环："@ + arrowed(trace),
            PackIssue::MissingDependency { pack, dependency } => "包 "@ + pack + " 的依赖 "@
                + dependency + " 不存在或不是有效包"@,
            PackIssue::UnmetDependency { pack, dependency } => "包 "@ + pack + " 依赖的 "@
                + dependency + " 不存在或不是有效包"@,
            PackIssue::UnknownPack { pack } => "packs.toml 顺序中的包 "@ + pack
                + " 不存在或不是有效包"@,
            PackIssue::VersionMismatch { pack, dependency, requirement, version } => "包 "@ + pack
                + " 依赖 "@ + dependency + requirement + "，但已启用版本是 "@ + version,
            PackIssue::WrongOrder { pack, dependency } => "包 "@ + pack + " 的依赖 "@
                + dependency + " 必须在它之前加载（当前顺序不满足）"@,
            PackIssue::NotEnabled { pack, dependency } => "包 "@ + pack + " 的依赖 "@
                + dependency + " 未启用"@,
            PackIssue::Conflict { pack, other, requirement } => "包 "@ + pack + " 与 "@ + other
                + requirement + " 冲突，不能同时启用"@,
        }
    }
}

/// Appends three texts.
fn append3(s: &mut String, a: &str, b: &str, c: &str)
    ensures
        final(s)@ == old(s)@ + a@ + b@ + c@,
{
    s.append(a);
    s.append(b);
    s.append(c);
}

impl PackError {
    /// The sentence that reports the error.
    pub fn message(&self) -> (s: String)
        ensures
            s@ == self@.sentence(),
    {
        let mut s = String::new();
        match self {
            PackError::Malformed => {
                s.append("package.toml 解析失败");
            },
            PackError::BadVersion { version } => {
                append3(&mut s, "version=\"", version.as_str(), "\" 不是合法 semver");
            },
            PackError::BadRequirement { subject, requirement } => {
                let text = quote(requirement.as_str());
                append3(&mut s, subject.as_str(), " 的版本要求 ", text.as_str());
                s.append(" 非法");
            },
            PackError::UnreadableRequirement { requirement } => {
                s.append("非法版本要求：");
                s.append(quote(requirement.as_str()).as_str());
            },
            PackError::UnreadableVersion { version } => {
                s.append("非法包版本：");
                s.append(quote(version.as_str()).as_str());
            },
            PackError::NoPacks { root } => {
                s.append(root.as_str());
                s.append(" 下没有任何有效资源包");
            },
            PackError::Cycle { trace } => {
                s.append("资源包依赖存在环：");
                let ghost ids = crate::text::texts(trace@);
                let ghost head = s@;
                let mut i: usize = 0;
                while i < trace.len()
                    invariant
                        i <= trace@.len(),
                        ids == crate::text::texts(trace@),
                        s@ =~= head + arrowed(ids.take(i as int)),
                    decreases trace@.len() - i,
                {
                    proof {
                        assert(ids.take(i as int + 1).drop_last() =~= ids.take(i as int));
                    }
                    if i > 0 {
                        s.append(" → ");
                    }
                    s.append(trace[i].as_str());
                    i += 1;
                }
                proof {
                    assert(ids.take(i as int) =~= ids);
                }
            },
            PackError::MissingDependency { pack, dependency } => {
                append3(&mut s, "包 ", pack.as_str(), " 的依赖 ");
                s.append(dependency.as_str());
                s.append(" 不存在或不是有效包");
            },
            PackError::UnmetDependency { pack, dependency } => {
                append3(&mut s, "包 ", pack.as_str(), " 依赖的 ");
                s.append(dependency.as_str());
                s.append(" 不存在或不是有效包");
            },
            PackError::UnknownPack { pack } => {
                append3(&mut s, "packs.toml 顺序中的包 ", pack.as_str(), " 不存在或不是有效包");
            },
            PackError::VersionMismatch { pack, dependency, requirement, version } => {
                append3(&mut s, "包 ", pack.as_str(), " 依赖 ");
                append3(
                    &mut s,
                    dependency.as_str(),
                    requirement.as_str(),
                    "，但已启用版本是 ",
                );
                s.append(version.as_str());
            },
            PackError::WrongOrder { pack, dependency } => {
                append3(&mut s, "包 ", pack.as_str(), " 的依赖 ");
                s.append(dependency.as_str());
                s.append(" 必须在它之前加载（当前顺序不满足）");
            },
            PackError::NotEnabled { pack, dependency } => {
                append3(&mut s, "包 ", pack.as_str(), " 的依赖 ");
                s.append(dependency.as_str());
                s.append(" 未启用");
            },
            PackError::Conflict { pack, other, requirement } => {
                append3(&mut s, "包 ", pack.as_str(), " 与 ");
                append3(&mut s, other.as_str(), requirement.as_str(), " 冲突，不能同时启用");
            },
        }
        proof {
            assert(s@ =~= self@.sentence());
        }
        s
    }
}

/// The subjects of a list of requirements, in the order of the list.
pub open spec fn subjects(list: Seq<(Seq<char>, Seq<char>)>) -> Seq<Seq<char>> {
    list.map_values(|e: (Seq<char>, Seq<char>)| e.0)
}

pub open spec fn pair_view(e: (String, String)) -> (Seq<char>, Seq<char>) {
    (e.0@, e.1@)
}

/// Version requirements, each on another pack.
#[derive(Debug)]
pub struct Requirements {
    entries: Vec<(String, String)>,
}

impl View for Requirements {
    type V = Seq<(Seq<char>, Seq<char>)>;

    closed spec fn view(&self) -> Seq<(Seq<char>, Seq<char>)> {
        self.entries@.map_values(|e: (String, String)| pair_view(e))
    }
}

/// No subject occurs twice.
pub open spec fn distinct_subjects(list: Seq<(Seq<char>, Seq<char>)>) -> bool {
    forall|i: int, j: int| 0 <= i < j < list.len() ==> (#[trigger] list[i]).0 != (#[trigger] list[j]).0
}

/// What a list asks of one pack.
pub open spec fn requirement_on(list: Seq<(Seq<char>, Seq<char>)>, pack: Seq<char>) -> Option<
    Seq<char>,
> {
    let k = crate::text::first_index(subjects(list), pack);
    if k < list.len() {
        Some(list[k].1)
    } else {
        None
    }
}

impl Requirements {
    #[verifier::type_invariant]
    closed spec fn well_formed(&self) -> bool {
        distinct_subjects(self@)
    }

    /// No requirement at all.
    pub fn new() -> (r: Requirements)
        ensures
            r@ == Seq::<(Seq<char>, Seq<char>)>::empty(),
    {
        let r = Requirements { entries: Vec::new() };
        proof {
            assert(r@ =~= Seq::<(Seq<char>, Seq<char>)>::empty());
        }
        r
    }

    /// Number of requirements.
    pub fn len(&self) -> (n: usize)
        ensures
            n == self@.len(),
    {
        self.entries.len()
    }

    /// Whether there is no requirement.
    pub fn is_empty(&self) -> (b: bool)
        ensures
            b == (self@.len() == 0),
    {
        self.entries.len() == 0
    }

    /// The pack that requirement `i` is about.
    pub fn subject(&self, i: usize) -> (s: &String)
        requires
            i < self@.len(),
        ensures
            s@ == self@[i as int].0,
    {
        &self.entries[i].0
    }

    /// The version text of requirement `i`.
    pub fn requirement(&self, i: usize) -> (s: &String)
        requires
            i < self@.len(),
        ensures
            s@ == self@[i as int].1,
    {
        &self.entries[i].1
    }

    /// The position of a pack among the subjects, the length where it is none of them.
    fn position(&self, pack: &str) -> (k: usize)
        ensures
            k == crate::text::first_index(subjects(self@), pack@),
            k <= self@.len(),
    {
        let mut k: usize = 0;
        while k < self.entries.len()
            invariant
                k <= self@.len() == self.entries@.len(),
                forall|j: int| 0 <= j < k ==> subjects(self@)[j] != pack@,
            decreases self@.len() - k,
        {
            if crate::text::same_text(self.entries[k].0.as_str(), pack) {
                proof {
                    assert(subjects(self@)[k as int] == pack@);
                    crate::text::lemma_first_index_is(subjects(self@), pack@, k as int);
                }
                return k;
            }
            k += 1;
        }
        proof {
            crate::text::lemma_first_index(subjects(self@), pack@);
        }
        k
    }

    /// The requirement on a pack.
    pub fn get(&self, pack: &str) -> (r: Option<&String>)
        ensures
            r matches Some(s) ==> requirement_on(self@, pack@) == Some(s@),
            r is None ==> requirement_on(self@, pack@) is None,
    {
        let k = self.position(pack);
        if k < self.entries.len() {
            Some(&self.entries[k].1)
        } else {
            None
        }
    }

    /// Sets the requirement on a pack; a pack that has one keeps its place in the list.
    pub fn insert(&mut self, pack: String, requirement: String)
        ensures
            requirement_on(old(self)@, pack@) is None ==> final(self)@ == old(self)@.push(
                (pack@, requirement@),
            ),
            requirement_on(old(self)@, pack@) is Some ==> final(self)@ == old(self)@.update(
                crate::text::first_index(subjects(old(self)@), pack@),
                (pack@, requirement@),
            ),
    {
        proof {
            use_type_invariant(&*self);
            crate::text::lemma_first_index(subjects(self@), pack@);
        }
        let k = self.position(pack.as_str());
        let ghost before = self@;
        let ghost e = (pack@, requirement@);
        let mut entries: Vec<(String, String)> = Vec::new();
        core::mem::swap(&mut entries, &mut self.entries);
        let ghost list = entries@.map_values(|e: (String, String)| pair_view(e));
        proof {
            assert(list =~= before);
        }
        if k < entries.len() {
            entries.set(k, (pack, requirement));
            proof {
                assert(entries@.map_values(|e: (String, String)| pair_view(e)) =~= before.update(
                    k as int,
                    e,
                ));
                assert forall|i: int, j: int| 0 <= i < j < before.len() implies (
                #[trigger] before.update(k as int, e)[i]).0 != (#[trigger] before.update(
                    k as int,
                    e,
                )[j]).0 by {
                    assert(before[i].0 != before[j].0);
                    assert(subjects(before)[k as int] == before[k as int].0);
                }
            }
        } else {
            entries.push((pack, requirement));
            proof {
                assert(entries@.map_values(|e: (String, String)| pair_view(e)) =~= before.push(e));
                assert forall|i: int| 0 <= i < before.len() implies (#[trigger] before[i]).0
                    != e.0 by {
                    assert(subjects(before)[i] == before[i].0);
                }
            }
        }
        self.entries = entries;
    }
}

impl Clone for Requirements {
    fn clone(&self) -> (copy: Requirements)
        ensures
            copy@ == self@,
    {
        proof {
            use_type_invariant(self);
        }
        let mut entries: Vec<(String, String)> = Vec::new();
        let mut i: usize = 0;
        while i < self.entries.len()
            invariant
                i <= self@.len() == self.entries@.len(),
                entries@.map_values(|e: (String, String)| pair_view(e)) =~= self@.take(i as int),
            decreases self@.len() - i,
        {
            let entry = (self.entries[i].0.clone(), self.entries[i].1.clone());
            let ghost done = entries@;
            entries.push(entry);
            proof {
                assert(self@.take(i as int + 1) =~= self@.take(i as int).push(self@[i as int]));
                assert(entries@.map_values(|e: (String, String)| pair_view(e))
                    =~= done.map_values(|e: (String, String)| pair_view(e)).push(
                    pair_view(entry),
                ));
                assert(pair_view(entry) == self@[i as int]);
            }
            i += 1;
        }
        proof {
            assert(self@.take(i as int) =~= self@);
        }
        Requirements { entries }
    }
}

/// The description of a content pack.
#[derive(Debug)]
pub struct Package {
    /// Identifier of the pack, the name of its folder.
    pub id: String,
    /// Name for people.
    pub name: Option<String>,
    /// Semantic version.
    pub version: String,
    /// Packs that must be loaded before this one.
    pub dependencies: Requirements,
    /// Packs that must not be loaded together with this one.
    pub conflicts: Requirements,
}

/// What a [`Package`] says.
pub struct PackageModel {
    pub id: Seq<char>,
    pub name: Option<Seq<char>>,
    pub version: Seq<char>,
    pub dependencies: Seq<(Seq<char>, Seq<char>)>,
    pub conflicts: Seq<(Seq<char>, Seq<char>)>,
}

impl View for Package {
    type V = PackageModel;

    open spec fn view(&self) -> PackageModel {
        PackageModel {
            id: self.id@,
            name: match self.name {
                Some(n) => Some(n@),
                None => None,
            },
            version: self.version@,
            dependencies: self.dependencies@,
            conflicts: self.conflicts@,
        }
    }
}

impl Clone for Package {
    fn clone(&self) -> (copy: Package)
        ensures
            copy@ == self@,
    {
        Package {
            id: self.id.clone(),
            name: match &self.name {
                Some(n) => Some(n.clone()),
                None => None,
            },
            version: self.version.clone(),
            dependencies: self.dependencies.clone(),
            conflicts: self.conflicts.clone(),
        }
    }
}

/// The first requirement of a list, from `k` on, that cannot be read. `word` tells what the list
/// is for.
pub open spec fn unreadable_requirement(
    word: Seq<char>,
    list: Seq<(Seq<char>, Seq<char>)>,
    k: int,
) -> Option<PackIssue>
    decreases list.len() - k,
{
    if k < 0 || k >= list.len() {
        None
    } else if !requirement_parses(list[k].1) {
        Some(PackIssue::BadRequirement { subject: word + list[k].0, requirement: list[k].1 })
    } else {
        unreadable_requirement(word, list, k + 1)
    }
}

/// The first objection to the description of a pack.
pub open spec fn package_objection(pkg: PackageModel) -> Option<PackIssue> {
    if !version_parses(pkg.version) {
        Some(PackIssue::BadVersion { version: pkg.version })
    } else if unreadable_requirement("依赖 "@, pkg.dependencies, 0) is Some {
        unreadable_requirement("依赖 "@, pkg.dependencies, 0)
    } else {
        unreadable_requirement("冲突 "@, pkg.conflicts, 0)
    }
}

fn check_requirements(word: &str, list: &Requirements) -> (r: Result<(), PackError>)
    ensures
        r is Ok ==> unreadable_requirement(word@, list@, 0) is None,
        r matches Err(e) ==> unreadable_requirement(word@, list@, 0) == Some(e@),
{
    let mut k: usize = 0;
    while k < list.len()
        invariant
            k <= list@.len(),
            unreadable_requirement(word@, list@, 0) == unreadable_requirement(
                word@,
                list@,
                k as int,
            ),
        decreases list@.len() - k,
    {
        if !is_requirement(list.requirement(k).as_str()) {
            let mut subject = String::new();
            subject.append(word);
            subject.append(list.subject(k).as_str());
            proof {
                assert(subject@ =~= word@ + list@[k as int].0);
            }
            return Err(
                PackError::BadRequirement { subject, requirement: list.requirement(k).clone() },
            );
        }
        k += 1;
    }
    Ok(())
}

/// Accepts the package that was decoded from a manifest when its version and all its version
/// requirements can be read. `None` stands for a manifest that could not be decoded.
pub fn parse_package(decoded: Option<Package>) -> (r: Result<Package, PackError>)
    ensures
        match decoded {
            None => r is Err && r->Err_0@ == PackIssue::Malformed,
            Some(pkg) => match package_objection(pkg@) {
                None => r == Ok::<Package, PackError>(pkg),
                Some(issue) => r is Err && r->Err_0@ == issue,
            },
        },
{
    let pkg = match decoded {
        Some(pkg) => pkg,
        None => {
            return Err(PackError::Malformed);
        },
    };
    if !is_version(pkg.version.as_str()) {
        return Err(PackError::BadVersion { version: pkg.version.clone() });
    }
    match check_requirements("依赖 ", &pkg.dependencies) {
        Ok(()) => {},
        Err(e) => {
            return Err(e);
        },
    }
    match check_requirements("冲突 ", &pkg.conflicts) {
        Ok(()) => {},
        Err(e) => {
            return Err(e);
        },
    }
    Ok(pkg)
}

/// Whether a version meets a requirement, or which of the two texts cannot be read.
pub open spec fn satisfaction(requirement: Seq<char>, version: Seq<char>) -> Result<
    bool,
    PackIssue,
> {
    if !requirement_parses(requirement) {
        Err(PackIssue::UnreadableRequirement { requirement })
    } else if !version_parses(version) {
        Err(PackIssue::UnreadableVersion { version })
    } else {
        Ok(requirement_admits(requirement, version))
    }
}

/// Whether `version` meets `requirement`, both in the syntax of Cargo.
pub fn version_satisfies(requirement: &str, version: &str) -> (r: Result<bool, PackError>)
    ensures
        r matches Ok(b) ==> satisfaction(requirement@, version@) == Ok::<bool, PackIssue>(b),
        r matches Err(e) ==> satisfaction(requirement@, version@) == Err::<bool, PackIssue>(e@),
{
    if !is_requirement(requirement) {
        let mut text = String::new();
        text.append(requirement);
        proof {
            assert(text@ =~= requirement@);
        }
        return Err(PackError::UnreadableRequirement { requirement: text });
    }
    if !is_version(version) {
        let mut text = String::new();
        text.append(version);
        proof {
            assert(text@ =~= version@);
        }
        return Err(PackError::UnreadableVersion { version: text });
    }
    Ok(requirement_matches(requirement, version))
}

/// The valid packs by identifier.
#[derive(Debug)]
pub struct PackTable {
    entries: Vec<(String, Package)>,
}

pub open spec fn entry_view(e: (String, Package)) -> (Seq<char>, PackageModel) {
    (e.0@, e.1@)
}

/// The identifiers of a list, in its order.
pub open spec fn keys(list: Seq<(Seq<char>, PackageModel)>) -> Seq<Seq<char>> {
    list.map_values(|e: (Seq<char>, PackageModel)| e.0)
}

/// The identifiers stand in ascending order, none of them twice.
pub open spec fn ascending(list: Seq<(Seq<char>, PackageModel)>) -> bool {
    forall|i: int, j: int|
        0 <= i < j < list.len() ==> sorts_before((#[trigger] list[i]).0, (#[trigger] list[j]).0)
}

/// Some entry of the list has the identifier.
pub open spec fn listed(list: Seq<(Seq<char>, PackageModel)>, id: Seq<char>) -> bool {
    exists|i: int| 0 <= i < list.len() && (#[trigger] list[i]).0 == id
}

/// Where the identifier stands in the list.
pub open spec fn place(list: Seq<(Seq<char>, PackageModel)>, id: Seq<char>) -> int {
    choose|i: int| 0 <= i < list.len() && (#[trigger] list[i]).0 == id
}

/// The list as a map from identifiers to packages.
pub open spec fn as_map(list: Seq<(Seq<char>, PackageModel)>) -> Map<Seq<char>, PackageModel> {
    Map::new(|id: Seq<char>| listed(list, id), |id: Seq<char>| list[place(list, id)].1)
}

pub proof fn lemma_place(list: Seq<(Seq<char>, PackageModel)>, i: int)
    requires
        ascending(list),
        0 <= i < list.len(),
    ensures
        place(list, list[i].0) == i,
        as_map(list).contains_key(list[i].0),
        as_map(list)[list[i].0] == list[i].1,
{
    let id = list[i].0;
    assert(listed(list, id));
    let j = place(list, id);
    if i < j {
        sorts_before_asymmetric(id, id);
    } else if j < i {
        sorts_before_asymmetric(id, id);
    }
}

proof fn lemma_ids(list: Seq<(Seq<char>, PackageModel)>)
    requires
        ascending(list),
    ensures
        as_map(list).dom().finite(),
        forall|i: int|
            0 <= i < list.len() ==> as_map(list).contains_key(
                #[trigger] keys(list)[i],
            ),
        forall|id: Seq<char>| as_map(list).contains_key(id) ==> #[trigger] keys(list).contains(id),
{
    let ids = keys(list);
    assert forall|i: int| 0 <= i < list.len() implies as_map(list).contains_key(
        #[trigger] ids[i],
    ) by {
        assert(list[i].0 == ids[i]);
    }
    assert forall|id: Seq<char>| as_map(list).contains_key(id) implies #[trigger] ids.contains(
        id,
    ) by {
        assert(ids[place(list, id)] == id);
    }
    assert(as_map(list).dom() =~= ids.to_set()) by {
        assert forall|id: Seq<char>|
            as_map(list).dom().contains(id) == ids.to_set().contains(id) by {
            if ids.contains(id) {
                let i = choose|i: int| 0 <= i < ids.len() && ids[i] == id;
                assert(list[i].0 == id);
            }
        }
    }
    vstd::seq_lib::seq_to_set_is_finite(ids);
}

impl View for PackTable {
    type V = Map<Seq<char>, PackageModel>;

    closed spec fn view(&self) -> Map<Seq<char>, PackageModel> {
        as_map(self.listing())
    }
}

impl PackTable {
    /// The entries in the order of their identifiers.
    pub closed spec fn listing(&self) -> Seq<(Seq<char>, PackageModel)> {
        self.entries@.map_values(|e: (String, Package)| entry_view(e))
    }

    /// The identifiers in ascending order.
    pub open spec fn ids(&self) -> Seq<Seq<char>> {
        keys(self.listing())
    }

    #[verifier::type_invariant]
    closed spec fn well_formed(&self) -> bool {
        ascending(self.listing())
    }

    /// An empty table.
    pub fn new() -> (t: PackTable)
        ensures
            t@ == Map::<Seq<char>, PackageModel>::empty(),
            t.listing().len() == 0,
    {
        let t = PackTable { entries: Vec::new() };
        proof {
            assert(t@ =~= Map::<Seq<char>, PackageModel>::empty());
        }
        t
    }

    /// Number of packs; the listing is sorted and the map is its reading.
    pub fn len(&self) -> (n: usize)
        ensures
            n == self.listing().len(),
            ascending(self.listing()),
            self@ == as_map(self.listing()),
            self@.dom().finite(),
            forall|i: int| 0 <= i < n ==> self@.contains_key(#[trigger] self.ids()[i]),
            forall|id: Seq<char>| self@.contains_key(id) ==> #[trigger] self.ids().contains(id),
    {
        proof {
            use_type_invariant(self);
            lemma_ids(self.listing());
        }
        self.entries.len()
    }

    /// Whether there is no pack.
    pub fn is_empty(&self) -> (b: bool)
        ensures
            b == (self.listing().len() == 0),
            b == (self@ =~= Map::<Seq<char>, PackageModel>::empty()),
    {
        proof {
            if self.listing().len() > 0 {
                use_type_invariant(self);
                lemma_place(self.listing(), 0);
            }
        }
        self.entries.len() == 0
    }

    /// The identifier at place `i` of the listing.
    pub fn id_at(&self, i: usize) -> (id: &String)
        requires
            i < self.listing().len(),
        ensures
            id@ == self.listing()[i as int].0,
    {
        &self.entries[i].0
    }

    /// The package at place `i` of the listing.
    pub fn package_at(&self, i: usize) -> (pkg: &Package)
        requires
            i < self.listing().len(),
        ensures
            pkg@ == self.listing()[i as int].1,
    {
        &self.entries[i].1
    }

    /// Where an identifier stands in the listing.
    pub fn find(&self, id: &str) -> (r: Option<usize>)
        ensures
            match r {
                Some(i) => i < self.listing().len() && self.listing()[i as int].0 == id@
                    && self@.contains_key(id@) && self@[id@] == self.listing()[i as int].1,
                None => !self@.contains_key(id@),
            },
    {
        let mut i: usize = 0;
        while i < self.entries.len()
            invariant
                i <= self.listing().len() == self.entries@.len(),
                forall|j: int| 0 <= j < i ==> (#[trigger] self.listing()[j]).0 != id@,
            decreases self.listing().len() - i,
        {
            if crate::text::same_text(self.entries[i].0.as_str(), id) {
                proof {
                    use_type_invariant(self);
                    lemma_place(self.listing(), i as int);
                }
                return Some(i);
            }
            i += 1;
        }
        None
    }

    /// The package of an identifier.
    pub fn get(&self, id: &str) -> (r: Option<&Package>)
        ensures
            match r {
                Some(pkg) => self@.contains_key(id@) && self@[id@] == pkg@,
                None => !self@.contains_key(id@),
            },
    {
        match self.find(id) {
            Some(i) => Some(&self.entries[i].1),
            None => None,
        }
    }

    /// Whether there is a pack of that identifier.
    pub fn contains_key(&self, id: &str) -> (b: bool)
        ensures
            b == self@.contains_key(id@),
    {
        self.find(id).is_some()
    }

    /// Adds a pack, in place of one with the same identifier.
    pub fn insert(&mut self, id: String, pkg: Package)
        ensures
            final(self)@ == old(self)@.insert(id@, pkg@),
    {
        proof {
            use_type_invariant(&*self);
        }
        let ghost list = self.listing();
        let ghost e = (id@, pkg@);
        let mut entries: Vec<(String, Package)> = Vec::new();
        core::mem::swap(&mut entries, &mut self.entries);
        let mut i: usize = 0;
        while i < entries.len() && text_before(entries[i].0.as_str(), id.as_str())
            invariant
                i <= entries@.len(),
                list =~= entries@.map_values(|e: (String, Package)| entry_view(e)),
                forall|j: int| 0 <= j < i ==> sorts_before((#[trigger] list[j]).0, id@),
            decreases entries@.len() - i,
        {
            i += 1;
        }
        let ghost key = id@;
        if i < entries.len() && entries[i].0 == id {
            entries.set(i, (id, pkg));
            let ghost new = list.update(i as int, e);
            proof {
                assert(entries@.map_values(|e: (String, Package)| entry_view(e)) =~= new);
                assert(ascending(new)) by {
                    assert forall|a: int, b: int| 0 <= a < b < new.len() implies sorts_before(
                        (#[trigger] new[a]).0,
                        (#[trigger] new[b]).0,
                    ) by {
                        assert(sorts_before(list[a].0, list[b].0));
                    }
                }
                lemma_place(new, i as int);
                assert(as_map(new) =~= as_map(list).insert(key, e.1)) by {
                    assert forall|x: Seq<char>| listed(new, x) == (listed(list, x) || x == key) by {
                        assert(new[i as int].0 == key && list[i as int].0 == key);
                        if listed(list, x) {
                            let k = place(list, x);
                            assert(new[k].0 == x);
                        }
                        if listed(new, x) {
                            let k = place(new, x);
                            assert(list[k].0 == x);
                        }
                    }
                    assert forall|x: Seq<char>| listed(list, x) && x != key implies as_map(new)[x]
                        == as_map(list)[x] by {
                        let k = place(list, x);
                        lemma_place(list, k);
                        lemma_place(new, k);
                    }
                }
            }
        } else {
            let ghost new = list.insert(i as int, e);
            proof {
                if i < list.len() {
                    assert(list[i as int].0 == entries@[i as int].0@);
                    sorts_before_total(list[i as int].0, key);
                }
                assert(ascending(new)) by {
                    assert forall|a: int, b: int| 0 <= a < b < new.len() implies sorts_before(
                        (#[trigger] new[a]).0,
                        (#[trigger] new[b]).0,
                    ) by {
                        let a2 = if a < i { a } else { a - 1 };
                        let b2 = if b < i { b } else { b - 1 };
                        if a == i {
                            if b2 > i {
                                assert(sorts_before(list[i as int].0, list[b2].0));
                                sorts_before_transitive(key, list[i as int].0, list[b2].0);
                            }
                        } else if b == i {
                            assert(sorts_before(list[a].0, key));
                        } else {
                            assert(sorts_before(list[a2].0, list[b2].0));
                        }
                    }
                }
            }
            entries.insert(i, (id, pkg));
            proof {
                assert(entries@.map_values(|e: (String, Package)| entry_view(e)) =~= new);
                lemma_place(new, i as int);
                assert(as_map(new) =~= as_map(list).insert(key, e.1)) by {
                    assert forall|x: Seq<char>| listed(new, x) == (listed(list, x) || x == key) by {
                        assert(new[i as int].0 == key);
                        if listed(list, x) {
                            let k = place(list, x);
                            let k2 = if k < i { k } else { k + 1 };
                            assert(new[k2].0 == x);
                        }
                        if listed(new, x) && x != key {
                            let k = place(new, x);
                            let k2 = if k < i { k } else { k - 1 };
                            assert(list[k2].0 == x);
                        }
                    }
                    assert forall|x: Seq<char>| listed(list, x) && x != key implies as_map(new)[x]
                        == as_map(list)[x] by {
                        let k = place(list, x);
                        lemma_place(list, k);
                        let k2 = if k < i { k } else { k + 1 };
                        assert(new[k2] == list[k]);
                        lemma_place(new, k2);
                    }
                }
            }
        }
        self.entries = entries;
    }
}

/// What the scan found of the manifest in a folder.
#[derive(Debug)]
pub enum Manifest {
    /// There is no manifest file.
    Absent,
    /// The manifest file could not be read.
    Unreadable,
    /// The manifest was read; `None` where it could not be decoded.
    Read(Option<Package>),
}

/// One entry of the data directory.
#[derive(Debug)]
pub struct FolderEntry {
    /// Name of the entry.
    pub name: String,
    /// Whether it is a directory.
    pub is_dir: bool,
    /// Its manifest.
    pub manifest: Manifest,
}

impl FolderEntry {
    /// The package of the entry, where the entry is a valid pack: a directory whose manifest
    /// describes a package that carries the name of the directory.
    pub open spec fn pack(self) -> Option<PackageModel> {
        match self.manifest {
            Manifest::Read(Some(pkg)) => if self.is_dir && package_objection(pkg@) is None
                && pkg.id@ == self.name@ {
                Some(pkg@)
            } else {
                None
            },
            _ => None,
        }
    }
}

/// The packs among the first `n` entries.
pub open spec fn scanned(entries: Seq<FolderEntry>, n: int) -> Map<Seq<char>, PackageModel>
    decreases n,
{
    if n <= 0 || n > entries.len() {
        Map::empty()
    } else {
        match entries[n - 1].pack() {
            Some(pkg) => scanned(entries, n - 1).insert(entries[n - 1].name@, pkg),
            None => scanned(entries, n - 1),
        }
    }
}

/// Collects the valid packs; entries that are none are passed over.
pub fn scan_packs(entries: &Vec<FolderEntry>) -> (packs: PackTable)
    ensures
        packs@ == scanned(entries@, entries@.len() as int),
{
    let mut packs = PackTable::new();
    let mut i: usize = 0;
    while i < entries.len()
        invariant
            i <= entries@.len(),
            packs@ == scanned(entries@, i as int),
        decreases entries@.len() - i,
    {
        if entries[i].is_dir {
            match &entries[i].manifest {
                Manifest::Read(Some(pkg)) => {
                    let copy = pkg.clone();
                    match parse_package(Some(copy)) {
                        Ok(found) => {
                            if found.id == entries[i].name {
                                packs.insert(entries[i].name.clone(), found);
                            }
                        },
                        Err(_) => {},
                    }
                },
                _ => {},
            }
        }
        i += 1;
    }
    packs
}

/// A version meets a requirement where both can be read and the requirement admits it; of what
/// cannot be read the requirement is told first.
pub proof fn readable_versions_are_compared(requirement: Seq<char>, version: Seq<char>)
    ensures
        requirement_parses(requirement) && version_parses(version) ==> satisfaction(
            requirement,
            version,
        ) == Ok::<bool, PackIssue>(requirement_admits(requirement, version)),
        !requirement_parses(requirement) ==> satisfaction(requirement, version) == Err::<
            bool,
            PackIssue,
        >(PackIssue::UnreadableRequirement { requirement }),
        requirement_parses(requirement) && !version_parses(version) ==> satisfaction(
            requirement,
            version,
        ) == Err::<bool, PackIssue>(PackIssue::UnreadableVersion { version }),
{
}

proof fn lemma_unreadable(word: Seq<char>, list: Seq<(Seq<char>, Seq<char>)>, k: int)
    requires
        0 <= k <= list.len(),
    ensures
        unreadable_requirement(word, list, k) is None <==> forall|i: int|
            k <= i < list.len() ==> requirement_parses((#[trigger] list[i]).1),
        unreadable_requirement(word, list, k) is Some ==> exists|i: int|
            k <= i < list.len() && !requirement_parses((#[trigger] list[i]).1) && (forall|j: int|
                k <= j < i ==> requirement_parses((#[trigger] list[j]).1))
                && unreadable_requirement(word, list, k) == Some(
                PackIssue::BadRequirement { subject: word + list[i].0, requirement: list[i].1 },
            ),
    decreases list.len() - k,
{
    if k < list.len() {
        if requirement_parses(list[k].1) {
            lemma_unreadable(word, list, k + 1);
            if unreadable_requirement(word, list, k) is Some {
                let i = choose|i: int|
                    k + 1 <= i < list.len() && !requirement_parses((#[trigger] list[i]).1) && (
                    forall|j: int| k + 1 <= j < i ==> requirement_parses((#[trigger] list[j]).1))
                        && unreadable_requirement(word, list, k + 1) == Some(
                        PackIssue::BadRequirement {
                            subject: word + list[i].0,
                            requirement: list[i].1,
                        },
                    );
                assert(!requirement_parses(list[i].1));
            }
        } else {
            assert(!requirement_parses(list[k].1));
        }
    }
}

/// A package is accepted exactly where its version and every requirement of it can be read. The
/// version is looked at first, then the dependencies, then the conflicts, each in order.
pub proof fn packages_are_accepted_if_they_can_be_read(pkg: PackageModel)
    ensures
        package_objection(pkg) is None <==> version_parses(pkg.version) && (forall|i: int|
            0 <= i < pkg.dependencies.len() ==> requirement_parses(
                (#[trigger] pkg.dependencies[i]).1,
            )) && (forall|i: int|
            0 <= i < pkg.conflicts.len() ==> requirement_parses((#[trigger] pkg.conflicts[i]).1)),
        !version_parses(pkg.version) ==> package_objection(pkg) == Some(
            PackIssue::BadVersion { version: pkg.version },
        ),
        version_parses(pkg.version) && package_objection(pkg) is Some ==> (exists|i: int|
            0 <= i < pkg.dependencies.len() && !requirement_parses((#[trigger] pkg.dependencies[i]).1)
                && package_objection(pkg) == Some(
                PackIssue::BadRequirement {
                    subject: "依赖 "@ + pkg.dependencies[i].0,
                    requirement: pkg.dependencies[i].1,
                },
            )) || ((forall|j: int|
            0 <= j < pkg.dependencies.len() ==> requirement_parses(
                (#[trigger] pkg.dependencies[j]).1,
            )) && exists|i: int|
            0 <= i < pkg.conflicts.len() && !requirement_parses((#[trigger] pkg.conflicts[i]).1)
                && package_objection(pkg) == Some(
                PackIssue::BadRequirement {
                    subject: "冲突 "@ + pkg.conflicts[i].0,
                    requirement: pkg.conflicts[i].1,
                },
            )),
{
    lemma_unreadable("依赖 "@, pkg.dependencies, 0);
    lemma_unreadable("冲突 "@, pkg.conflicts, 0);
}

/// What a pack asks of another is what the list says of it, where the list names it.
pub proof fn requirements_are_found_by_their_pack(
    list: Seq<(Seq<char>, Seq<char>)>,
    pack: Seq<char>,
    i: int,
)
    requires
        distinct_subjects(list),
    ensures
        0 <= i < list.len() && list[i].0 == pack ==> requirement_on(list, pack) == Some(list[i].1),
        requirement_on(list, pack) is None <==> forall|j: int|
            0 <= j < list.len() ==> (#[trigger] list[j]).0 != pack,
{
    let names = subjects(list);
    crate::text::lemma_first_index(names, pack);
    let k = crate::text::first_index(names, pack);
    assert(names.len() == list.len());
    if k < list.len() {
        assert(names[k] == list[k].0);
    }
    if 0 <= i < list.len() && list[i].0 == pack {
        assert(names[i] == pack);
        assert(names.contains(pack));
        assert(k <= i);
        if k < i {
            assert(list[k].0 != list[i].0);
        }
    }
    if k >= list.len() {
        assert forall|j: int| 0 <= j < list.len() implies (#[trigger] list[j]).0 != pack by {
            assert(names[j] == list[j].0);
            if names[j] == pack {
                assert(names.contains(pack));
            }
        }
    }
}

/// A pack is found below the root exactly where a directory has a manifest that can be read, is
/// accepted and names that directory; each pack is found under its name, as the last directory of
/// that name describes it.
pub proof fn packs_are_directories_that_name_themselves(
    entries: Seq<FolderEntry>,
    n: int,
    id: Seq<char>,
    i: int,
)
    requires
        0 <= n <= entries.len(),
    ensures
        scanned(entries, n).contains_key(id) <==> exists|j: int|
            0 <= j < n && (#[trigger] entries[j]).name@ == id && entries[j].is_dir
                && entries[j].manifest is Read && entries[j].manifest->Read_0 is Some
                && entries[j].manifest->Read_0->0.id@ == id && package_objection(
                entries[j].manifest->Read_0->0@,
            ) is None,
        0 <= i < n && entries[i].name@ == id && entries[i].is_dir && entries[i].manifest is Read
            && entries[i].manifest->Read_0 is Some && entries[i].manifest->Read_0->0.id@ == id
            && package_objection(entries[i].manifest->Read_0->0@) is None && (forall|j: int|
            i < j < n ==> (#[trigger] entries[j]).name@ != id) ==> scanned(entries, n)[id]
            == entries[i].manifest->Read_0->0@,
    decreases n,
{
    if n > 0 {
        packs_are_directories_that_name_themselves(entries, n - 1, id, i);
        let last = entries[n - 1];
        if scanned(entries, n - 1).contains_key(id) {
            let j = choose|j: int|
                0 <= j < n - 1 && (#[trigger] entries[j]).name@ == id && entries[j].is_dir
                    && entries[j].manifest is Read && entries[j].manifest->Read_0 is Some
                    && entries[j].manifest->Read_0->0.id@ == id && package_objection(
                    entries[j].manifest->Read_0->0@,
                ) is None;
            assert(entries[j].name@ == id);
        }
        if last.pack() is Some {
            assert(last.name@ == last.manifest->Read_0->0.id@);
        }
    }
}

/// A message about a pack and one that it needs names the pack first and the other after it.
pub proof fn messages_name_the_pack_first(pack: Seq<char>, dependency: Seq<char>)
    ensures
        (PackIssue::MissingDependency { pack, dependency }).sentence().take(
            ("包 "@ + pack).len() as int,
        ) == "包 "@ + pack,
        (PackIssue::UnmetDependency { pack, dependency }).sentence().take(
            ("包 "@ + pack).len() as int,
        ) == "包 "@ + pack,
        (PackIssue::WrongOrder { pack, dependency }).sentence().take(("包 "@ + pack).len() as int)
            == "包 "@ + pack,
        (PackIssue::NotEnabled { pack, dependency }).sentence().take(("包 "@ + pack).len() as int)
            == "包 "@ + pack,
{
    let begin = "包 "@ + pack;
    let n = begin.len() as int;
    assert((PackIssue::MissingDependency { pack, dependency }).sentence().take(n) =~= begin);
    assert((PackIssue::UnmetDependency { pack, dependency }).sentence().take(n) =~= begin);
    assert((PackIssue::WrongOrder { pack, dependency }).sentence().take(n) =~= begin);
    assert((PackIssue::NotEnabled { pack, dependency }).sentence().take(n) =~= begin);
}

/// A trace is told with an arrow between each pack and the next.
pub proof fn traces_are_told_with_arrows(trace: Seq<Seq<char>>, id: Seq<char>)
    ensures
        arrowed(seq![id]) == id,
        trace.len() > 0 ==> arrowed(trace.push(id)) == arrowed(trace) + " → "@ + id,
{
    assert(trace.push(id).drop_last() =~= trace);
}

/// A decoded package is handed on as it is where there is no objection to it; else the objection is
/// told, and what could not be decoded is malformed.
pub proof fn accepted_packages_are_handed_on(decoded: Option<Package>, r: Result<Package, PackError>)
    requires
        call_ensures(parse_package, (decoded,), r),
    ensures
        decoded is None ==> r is Err && r->Err_0@ is Malformed,
        decoded is Some && package_objection(decoded->0@) is None ==> r is Ok && r->Ok_0
            == decoded->0,
        decoded is Some && package_objection(decoded->0@) is Some ==> r is Err && Some(r->Err_0@)
            == package_objection(decoded->0@),
{
}

/// What is told of an error is what it holds, part by part.
pub proof fn errors_are_seen_as_they_are(
    pack: String,
    dependency: String,
    requirement: String,
    version: String,
)
    ensures
        (PackError::MissingDependency { pack, dependency })@ == (PackIssue::MissingDependency {
            pack: pack@,
            dependency: dependency@,
        }),
        (PackError::UnmetDependency { pack, dependency })@ == (PackIssue::UnmetDependency {
            pack: pack@,
            dependency: dependency@,
        }),
        (PackError::WrongOrder { pack, dependency })@ == (PackIssue::WrongOrder {
            pack: pack@,
            dependency: dependency@,
        }),
        (PackError::NotEnabled { pack, dependency })@ == (PackIssue::NotEnabled {
            pack: pack@,
            dependency: dependency@,
        }),
        (PackError::VersionMismatch { pack, dependency, requirement, version })@ == (
        PackIssue::VersionMismatch {
            pack: pack@,
            dependency: dependency@,
            requirement: requirement@,
            version: version@,
        }),
        (PackError::Conflict { pack, other: dependency, requirement })@ == (PackIssue::Conflict {
            pack: pack@,
            other: dependency@,
            requirement: requirement@,
        }),
{
}

} // verus!
