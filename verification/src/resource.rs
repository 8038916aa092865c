//! The merged resource space: several pack roots seen as one, later packs over earlier ones.
use crate::game_path::{Address, GamePath};
use crate::text::{copy_texts, joined, texts};
use vstd::prelude::*;

verus! {

/// Why a resource could not be read.
#[derive(Clone, Copy, Debug, PartialEq, Eq, Structural)]
pub enum ResourceError {
    /// No pack holds the file.
    NotFound,
    /// A pack holds the file, but it could not be read.
    Unreadable,
}

/// The file that an address names below a root.
pub open spec fn file_below(root: Seq<char>, address: Address) -> Seq<char> {
    joined(joined(root, address.namespace), address.path)
}

/// The file of the last root that has one, `present` telling which files there are.
pub open spec fn resolved(
    roots: Seq<Seq<char>>,
    address: Address,
    present: spec_fn(Seq<char>) -> bool,
) -> Option<Seq<char>>
    decreases roots.len(),
{
    if roots.len() == 0 {
        None
    } else if present(file_below(roots.last(), address)) {
        Some(file_below(roots.last(), address))
    } else {
        resolved(roots.drop_last(), address, present)
    }
}

/// The test answers as `present` says.
pub open spec fn answers<F: Fn(&str) -> bool>(
    test: F,
    present: spec_fn(Seq<char>) -> bool,
) -> bool {
    forall|s: &str, b: bool| #[trigger] call_ensures(test, (s,), b) ==> b == present(s@)
}

/// The test was asked about a file and gave that answer.
pub open spec fn said<F: Fn(&str) -> bool>(test: F, file: Seq<char>, answer: bool) -> bool {
    exists|s: &str| s@ == file && #[trigger] call_ensures(test, (s,), answer)
}

/// What a search through the roots gives, from the last one on: the first file that the test
/// finds, or nothing where it finds none.
pub open spec fn searched<F: Fn(&str) -> bool>(
    roots: Seq<Seq<char>>,
    address: Address,
    test: F,
    r: Option<Seq<char>>,
) -> bool
    decreases roots.len(),
{
    if roots.len() == 0 {
        r is None
    } else {
        let file = file_below(roots.last(), address);
        ||| said(test, file, true) && r == Some(file)
        ||| said(test, file, false) && searched(roots.drop_last(), address, test, r)
    }
}

/// A search with a test that always gives the same answer about a file gives the file of the last
/// root that has one.
pub proof fn search_resolves<F: Fn(&str) -> bool>(
    roots: Seq<Seq<char>>,
    address: Address,
    test: F,
    present: spec_fn(Seq<char>) -> bool,
    r: Option<Seq<char>>,
)
    requires
        answers(test, present),
        searched(roots, address, test, r),
    ensures
        r == resolved(roots, address, present),
    decreases roots.len(),
{
    if roots.len() > 0 {
        let file = file_below(roots.last(), address);
        if !(said(test, file, true) && r == Some(file)) {
            search_resolves(roots.drop_last(), address, test, present, r);
        }
    }
}

/// The text of a name that may be missing.
pub open spec fn name_of(name: Option<String>) -> Option<Seq<char>> {
    match name {
        Some(s) => Some(s@),
        None => None,
    }
}

/// What a pack holds is found there, whatever earlier packs hold.
pub proof fn later_pack_overrides(
    roots: Seq<Seq<char>>,
    address: Address,
    present: spec_fn(Seq<char>) -> bool,
    i: int,
)
    requires
        0 <= i < roots.len(),
        present(file_below(roots[i], address)),
        forall|j: int| i < j < roots.len() ==> !present(file_below(#[trigger] roots[j], address)),
    ensures
        resolved(roots, address, present) == Some(file_below(roots[i], address)),
    decreases roots.len(),
{
    let n = roots.len() - 1;
    if i < n {
        assert(!present(file_below(roots[n], address)));
        let rest = roots.drop_last();
        assert(rest[i] == roots[i]);
        assert forall|j: int| i < j < rest.len() implies !present(
            file_below(#[trigger] rest[j], address),
        ) by {
            assert(rest[j] == roots[j]);
        }
        later_pack_overrides(rest, address, present, i);
    }
}

/// Nothing is found exactly when no pack holds the file.
pub proof fn unresolved_iff_absent(
    roots: Seq<Seq<char>>,
    address: Address,
    present: spec_fn(Seq<char>) -> bool,
)
    ensures
        resolved(roots, address, present) is None <==> forall|i: int|
            0 <= i < roots.len() ==> !present(file_below(#[trigger] roots[i], address)),
    decreases roots.len(),
{
    if roots.len() > 0 {
        let rest = roots.drop_last();
        unresolved_iff_absent(rest, address, present);
        let n = roots.len() - 1;
        if resolved(roots, address, present) is None {
            assert forall|i: int| 0 <= i < roots.len() implies !present(
                file_below(#[trigger] roots[i], address),
            ) by {
                if i < n {
                    assert(rest[i] == roots[i]);
                }
            }
        } else if resolved(rest, address, present) is Some {
            let i = choose|i: int|
                0 <= i < rest.len() && present(file_below(#[trigger] rest[i], address));
            assert(roots[i] == rest[i]);
        } else {
            assert(roots[n] == roots.last());
        }
    }
}

/// What comes of reading a file that may be missing.
pub open spec fn contents_read<R: Fn(&str) -> Option<Vec<u8>>>(
    read_file: R,
    file: Option<Seq<char>>,
    r: Result<Vec<u8>, ResourceError>,
) -> bool {
    match file {
        None => r == Err::<Vec<u8>, ResourceError>(ResourceError::NotFound),
        Some(name) => exists|s: &str, content: Option<Vec<u8>>|
            s@ == name && #[trigger] call_ensures(read_file, (s,), content) && r == match content {
                Some(bytes) => Ok::<Vec<u8>, ResourceError>(bytes),
                None => Err(ResourceError::Unreadable),
            },
    }
}

/// The pack roots, base pack first, each overriding the ones before it.
#[derive(Debug)]
pub struct MergedResourceSpace {
    roots: Vec<String>,
}

impl View for MergedResourceSpace {
    type V = Seq<Seq<char>>;

    closed spec fn view(&self) -> Seq<Seq<char>> {
        texts(self.roots@)
    }
}

impl MergedResourceSpace {
    /// A space of one pack.
    pub fn new(root: String) -> (s: MergedResourceSpace)
        ensures
            s@ == seq![root@],
    {
        let mut roots: Vec<String> = Vec::new();
        roots.push(root);
        proof {
            assert(texts(roots@) =~= seq![root@]);
        }
        MergedResourceSpace::from_pack_roots(roots)
    }

    /// A space of several packs in load order.
    pub fn from_pack_roots(roots: Vec<String>) -> (s: MergedResourceSpace)
        ensures
            s@ == texts(roots@),
    {
        MergedResourceSpace { roots }
    }

    /// The pack roots in load order.
    pub fn roots(&self) -> (roots: &[String])
        ensures
            texts(roots@) == self@,
    {
        self.roots.as_slice()
    }

    /// The file that an address names: that of the last pack that has it. `is_file` tells whether
    /// a file is there.
    pub fn resolve<F: Fn(&str) -> bool>(&self, path: &GamePath, is_file: F) -> (r: Option<String>)
        requires
            forall|s: &str| call_requires(is_file, (s,)),
        ensures
            searched(self@, path@, is_file, name_of(r)),
            forall|present: spec_fn(Seq<char>) -> bool| #[trigger]
                answers(is_file, present) ==> name_of(r) == resolved(self@, path@, present),
    {
        let mut i: usize = self.roots.len();
        let mut r: Option<String> = None;
        proof {
            assert(self@.take(i as int) =~= self@);
        }
        while i > 0 && r.is_none()
            invariant
                i <= self.roots@.len(),
                self@ == texts(self.roots@),
                forall|s: &str| call_requires(is_file, (s,)),
                match r {
                    Some(file) => searched(self@, path@, is_file, Some(file@)),
                    None => forall|f: Option<Seq<char>>| #[trigger]
                        searched(self@.take(i as int), path@, is_file, f) ==> searched(
                            self@,
                            path@,
                            is_file,
                            f,
                        ),
                },
            decreases i,
        {
            let file = path.resolve(self.roots[i - 1].as_str());
            let name = file.as_str();
            let hit = is_file(name);
            proof {
                assert(self@.take(i as int).drop_last() =~= self@.take(i as int - 1));
                assert(self@.take(i as int).last() == self.roots@[i as int - 1]@);
                assert(call_ensures(is_file, (name,), hit));
                assert(said(is_file, file@, hit));
                assert forall|f: Option<Seq<char>>|
                    #[trigger] searched(self@.take(i as int - 1), path@, is_file, f)
                        && !hit implies searched(self@, path@, is_file, f) by {
                    assert(searched(self@.take(i as int), path@, is_file, f));
                }
                assert(hit ==> searched(self@.take(i as int), path@, is_file, Some(file@)));
            }
            if hit {
                r = Some(file);
            }
            i -= 1;
        }
        proof {
            if r is None {
                assert(searched(self@.take(0), path@, is_file, None));
            }
            assert forall|present: spec_fn(Seq<char>) -> bool| #[trigger]
                answers(is_file, present) implies name_of(r) == resolved(
                self@,
                path@,
                present,
            ) by {
                search_resolves(self@, path@, is_file, present, name_of(r));
            }
        }
        r
    }

    /// Whether some pack has the file.
    pub fn has_file<F: Fn(&str) -> bool>(&self, path: &GamePath, is_file: F) -> (b: bool)
        requires
            forall|s: &str| call_requires(is_file, (s,)),
        ensures
            exists|file: Option<Seq<char>>| #[trigger]
                searched(self@, path@, is_file, file) && b == (file is Some),
            forall|present: spec_fn(Seq<char>) -> bool| #[trigger]
                answers(is_file, present) ==> b == (resolved(self@, path@, present) is Some),
    {
        let file = self.resolve(path, is_file);
        proof {
            assert(searched(self@, path@, is_file, name_of(file)));
        }
        file.is_some()
    }

    /// The bytes of the file that an address names, read by `read_file`.
    pub fn read<F: Fn(&str) -> bool, R: Fn(&str) -> Option<Vec<u8>>>(
        &self,
        path: &GamePath,
        is_file: F,
        read_file: R,
    ) -> (r: Result<Vec<u8>, ResourceError>)
        requires
            forall|s: &str| call_requires(is_file, (s,)),
            forall|s: &str| call_requires(read_file, (s,)),
        ensures
            exists|file: Option<Seq<char>>| #[trigger]
                searched(self@, path@, is_file, file) && contents_read(read_file, file, r),
            forall|present: spec_fn(Seq<char>) -> bool| #[trigger]
                answers(is_file, present) ==> contents_read(
                    read_file,
                    resolved(self@, path@, present),
                    r,
                ),
    {
        let file = self.resolve(path, is_file);
        let r = match &file {
            None => Err(ResourceError::NotFound),
            Some(file) => {
                let name = file.as_str();
                let content = read_file(name);
                proof {
                    assert(call_ensures(read_file, (name,), content));
                }
                match content {
                    Some(bytes) => Ok(bytes),
                    None => Err(ResourceError::Unreadable),
                }
            },
        };
        proof {
            assert(searched(self@, path@, is_file, name_of(file)));
            assert(contents_read(read_file, name_of(file), r));
        }
        r
    }
}

impl Clone for MergedResourceSpace {
    fn clone(&self) -> (copy: MergedResourceSpace)
        ensures
            copy@ == self@,
    {
        MergedResourceSpace { roots: copy_texts(&self.roots) }
    }
}

/// A search gives the file of the last root whose file was said to be there, and nothing only where
/// it was said of every root that it is not.
pub proof fn searches_begin_at_the_last_root<F: Fn(&str) -> bool>(
    roots: Seq<Seq<char>>,
    address: Address,
    test: F,
    r: Option<Seq<char>>,
)
    requires
        searched(roots, address, test, r),
    ensures
        match r {
            Some(file) => exists|i: int|
                0 <= i < roots.len() && file == joined(
                    joined(#[trigger] roots[i], address.namespace),
                    address.path,
                ) && (exists|s: &str| s@ == file && #[trigger] call_ensures(test, (s,), true)) && (
                forall|j: int|
                    i < j < roots.len() ==> exists|s: &str|
                        s@ == joined(joined(#[trigger] roots[j], address.namespace), address.path)
                            && #[trigger] call_ensures(test, (s,), false)),
            None => forall|j: int|
                0 <= j < roots.len() ==> exists|s: &str|
                    s@ == joined(joined(#[trigger] roots[j], address.namespace), address.path)
                        && #[trigger] call_ensures(test, (s,), false),
        },
    decreases roots.len(),
{
    if roots.len() > 0 {
        let last = roots.len() - 1;
        let front = roots.drop_last();
        let file = file_below(roots.last(), address);
        if said(test, file, true) && r == Some(file) {
            assert(roots[last] == roots.last());
        } else {
            searches_begin_at_the_last_root(front, address, test, r);
            if r is Some {
                let i = choose|i: int|
                    0 <= i < front.len() && r->0 == joined(
                        joined(#[trigger] front[i], address.namespace),
                        address.path,
                    ) && (exists|s: &str|
                        s@ == r->0 && #[trigger] call_ensures(test, (s,), true)) && (forall|
                        j: int,
                    |
                        i < j < front.len() ==> exists|s: &str|
                            s@ == joined(
                                joined(#[trigger] front[j], address.namespace),
                                address.path,
                            ) && #[trigger] call_ensures(test, (s,), false));
                assert(roots[i] == front[i]);
                assert forall|j: int| i < j < roots.len() implies exists|s: &str|
                    s@ == joined(joined(#[trigger] roots[j], address.namespace), address.path)
                        && #[trigger] call_ensures(test, (s,), false) by {
                    if j < last {
                        assert(roots[j] == front[j]);
                    }
                }
            } else {
                assert forall|j: int| 0 <= j < roots.len() implies exists|s: &str|
                    s@ == joined(joined(#[trigger] roots[j], address.namespace), address.path)
                        && #[trigger] call_ensures(test, (s,), false) by {
                    if j < last {
                        assert(roots[j] == front[j]);
                    }
                }
            }
        }
    }
}

/// What is read is what the file holds; a file that was not found is not read, and one that cannot
/// be read is told from it.
pub proof fn reading_gives_what_the_file_holds<R: Fn(&str) -> Option<Vec<u8>>>(
    read_file: R,
    file: Option<Seq<char>>,
    r: Result<Vec<u8>, ResourceError>,
)
    requires
        contents_read(read_file, file, r),
    ensures
        file is None <==> r == Err::<Vec<u8>, ResourceError>(ResourceError::NotFound),
        r matches Ok(bytes) ==> exists|s: &str|
            Some(s@) == file && #[trigger] call_ensures(read_file, (s,), Some(bytes)),
        r == Err::<Vec<u8>, ResourceError>(ResourceError::Unreadable) ==> exists|s: &str|
            Some(s@) == file && #[trigger] call_ensures(read_file, (s,), None),
{
    if let Some(name) = file {
        let (s, content) = choose|s: &str, content: Option<Vec<u8>>|
            s@ == name && #[trigger] call_ensures(read_file, (s,), content) && r == match content {
                Some(bytes) => Ok::<Vec<u8>, ResourceError>(bytes),
                None => Err(ResourceError::Unreadable),
            };
        assert(call_ensures(read_file, (s,), content));
        if let Ok(bytes) = r {
            assert(content == Some(bytes));
            assert(Some(s@) == file && call_ensures(read_file, (s,), Some(bytes)));
        } else {
            assert(content is None);
            assert(Some(s@) == file && call_ensures(read_file, (s,), None));
        }
    }
}

} // verus!
