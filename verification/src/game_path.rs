//! Resource addresses of the form `namespace:dir/file.ext`.
use crate::text::{chars_of, join_path, joined, string_of};
use vstd::prelude::*;
use vstd::string::StringExecFns;

verus! {

/// Why a text is not a resource address.
#[derive(Clone, Copy, Debug, PartialEq, Eq, Structural)]
pub enum GamePathError {
    /// There is no `:` between namespace and path.
    MissingSeparator,
    /// The namespace is empty.
    EmptyNamespace,
    /// The namespace begins with a dot.
    DotNamespace,
    /// The namespace holds a character outside letters, digits, `_`, `-` and `.`.
    NamespaceCharacter,
    /// The path is empty.
    EmptyPath,
    /// The path begins with `/`.
    RootedPath,
    /// A segment of the path is `.` or `..`.
    DotSegment,
    /// The path holds a character outside letters, digits, `_`, `-`, `.` and `/`.
    PathCharacter,
}

/// What an address says: a namespace and a path inside it.
#[verifier::ext_equal]
pub struct Address {
    pub namespace: Seq<char>,
    pub path: Seq<char>,
}

/// Every run of slashes shrunk to one slash.
pub open spec fn collapsed(s: Seq<char>) -> Seq<char>
    decreases s.len(),
{
    if s.len() == 0 {
        s
    } else {
        let head = collapsed(s.drop_last());
        if s.last() == '/' && head.len() > 0 && head.last() == '/' {
            head
        } else {
            head.push(s.last())
        }
    }
}

/// The text without the slashes at its end.
pub open spec fn trimmed(s: Seq<char>) -> Seq<char>
    decreases s.len(),
{
    if s.len() > 0 && s.last() == '/' {
        trimmed(s.drop_last())
    } else {
        s
    }
}

/// The one spelling that stands for all spellings of the same path.
pub open spec fn normalized(s: Seq<char>) -> Seq<char> {
    trimmed(collapsed(s))
}

/// No two slashes in a row.
pub open spec fn no_doubled_slash(s: Seq<char>) -> bool {
    forall|i: int, j: int|
        0 <= i && j == i + 1 && j < s.len() && #[trigger] s[i] == '/' ==> #[trigger] s[j] != '/'
}

/// No two slashes in a row and none at the end.
pub open spec fn canonical(s: Seq<char>) -> bool {
    &&& no_doubled_slash(s)
    &&& s.len() > 0 ==> s.last() != '/'
}

pub open spec fn is_ascii_alnum(c: char) -> bool {
    ('0' <= c && c <= '9') || ('a' <= c && c <= 'z') || ('A' <= c && c <= 'Z')
}

pub open spec fn namespace_char(c: char) -> bool {
    is_ascii_alnum(c) || c == '_' || c == '-' || c == '.'
}

pub open spec fn path_char(c: char) -> bool {
    namespace_char(c) || c == '/'
}

/// `s[i..j]` is a segment: slashes or the ends of `s` bound it and none lies within.
pub open spec fn is_segment(s: Seq<char>, i: int, j: int) -> bool {
    &&& 0 <= i <= j <= s.len()
    &&& i == 0 || s[i - 1] == '/'
    &&& j == s.len() || s[j] == '/'
    &&& forall|k: int| i <= k < j ==> s[k] != '/'
}

/// `.` or `..`.
pub open spec fn is_dots(s: Seq<char>) -> bool {
    s == seq!['.'] || s == seq!['.', '.']
}

pub open spec fn has_dot_segment(s: Seq<char>) -> bool {
    exists|i: int, j: int| #[trigger] is_segment(s, i, j) && is_dots(s.subrange(i, j))
}

/// The first objection to a namespace.
pub open spec fn namespace_objection(s: Seq<char>) -> Option<GamePathError> {
    if s.len() == 0 {
        Some(GamePathError::EmptyNamespace)
    } else if s[0] == '.' {
        Some(GamePathError::DotNamespace)
    } else if exists|i: int| 0 <= i < s.len() && !namespace_char(#[trigger] s[i]) {
        Some(GamePathError::NamespaceCharacter)
    } else {
        None
    }
}

/// The first objection to a normalized path.
pub open spec fn path_objection(s: Seq<char>) -> Option<GamePathError> {
    if s.len() == 0 {
        Some(GamePathError::EmptyPath)
    } else if s[0] == '/' {
        Some(GamePathError::RootedPath)
    } else if has_dot_segment(s) {
        Some(GamePathError::DotSegment)
    } else if exists|i: int| 0 <= i < s.len() && !path_char(#[trigger] s[i]) {
        Some(GamePathError::PathCharacter)
    } else {
        None
    }
}

/// The address that a namespace and a path make, or the objection to them.
pub open spec fn address_of(namespace: Seq<char>, path: Seq<char>) -> Result<
    Address,
    GamePathError,
> {
    match namespace_objection(namespace) {
        Some(e) => Err(e),
        None => match path_objection(normalized(path)) {
            Some(e) => Err(e),
            None => Ok(Address { namespace, path: normalized(path) }),
        },
    }
}

/// Position of the first `:`, or the length.
pub open spec fn colon_index(s: Seq<char>) -> int {
    crate::text::first_index(s, ':')
}

/// The address that a text spells, or the objection to it.
pub open spec fn parsed_address(s: Seq<char>) -> Result<Address, GamePathError> {
    let k = colon_index(s);
    if k < s.len() {
        address_of(s.take(k), s.skip(k + 1))
    } else {
        Err(GamePathError::MissingSeparator)
    }
}

impl Address {
    /// The address meets every rule and its path is in the one canonical spelling.
    pub open spec fn valid(self) -> bool {
        &&& namespace_objection(self.namespace) is None
        &&& path_objection(self.path) is None
        &&& canonical(self.path)
    }

    /// The text that spells the address.
    pub open spec fn spelled(self) -> Seq<char> {
        self.namespace.push(':') + self.path
    }
}

proof fn lemma_collapsed(s: Seq<char>)
    ensures
        no_doubled_slash(collapsed(s)),
    decreases s.len(),
{
    if s.len() > 0 {
        lemma_collapsed(s.drop_last());
    }
}

proof fn lemma_collapsed_fixed(s: Seq<char>)
    requires
        no_doubled_slash(s),
    ensures
        collapsed(s) == s,
    decreases s.len(),
{
    if s.len() > 0 {
        let head = s.drop_last();
        lemma_collapsed_fixed(head);
        if head.len() > 0 && s.last() == '/' {
            assert(head.last() == s[s.len() - 2]);
        }
        assert(head.push(s.last()) =~= s);
    }
}

proof fn lemma_trimmed(s: Seq<char>)
    ensures
        trimmed(s).len() <= s.len(),
        trimmed(s) == s.take(trimmed(s).len() as int),
        trimmed(s).len() > 0 ==> trimmed(s).last() != '/',
        forall|i: int| trimmed(s).len() <= i < s.len() ==> s[i] == '/',
    decreases s.len(),
{
    if s.len() > 0 && s.last() == '/' {
        lemma_trimmed(s.drop_last());
        assert(s.drop_last().take(trimmed(s).len() as int) =~= s.take(trimmed(s).len() as int));
        assert forall|i: int| trimmed(s).len() <= i < s.len() implies s[i] == '/' by {
            if i < s.len() - 1 {
                assert(s.drop_last()[i] == s[i]);
            }
        }
    } else {
        assert(s.take(s.len() as int) =~= s);
    }
}

/// Normalizing leaves no doubled slash and no slash at the end.
pub proof fn normalized_is_canonical(s: Seq<char>)
    ensures
        canonical(normalized(s)),
{
    let c = collapsed(s);
    lemma_collapsed(s);
    lemma_trimmed(c);
    let t = trimmed(c);
    assert forall|i: int, j: int|
        0 <= i && j == i + 1 && j < t.len() && #[trigger] t[i] == '/' implies #[trigger] t[j]
        != '/' by {
        assert(c[i] == t[i]);
        assert(c[j] == t[j]);
    }
}

/// A canonical path is its own normal form.
pub proof fn canonical_is_fixed(s: Seq<char>)
    requires
        canonical(s),
    ensures
        normalized(s) == s,
{
    lemma_collapsed_fixed(s);
}

/// Normalizing twice is normalizing once.
pub proof fn normalized_idempotent(s: Seq<char>)
    ensures
        normalized(normalized(s)) == normalized(s),
{
    normalized_is_canonical(s);
    canonical_is_fixed(normalized(s));
}

proof fn lemma_collapsed_append(a: Seq<char>, b: Seq<char>, t: Seq<char>)
    requires
        collapsed(a) == collapsed(b),
    ensures
        collapsed(a + t) == collapsed(b + t),
    decreases t.len(),
{
    if t.len() == 0 {
        assert(a + t =~= a);
        assert(b + t =~= b);
    } else {
        lemma_collapsed_append(a, b, t.drop_last());
        assert((a + t).drop_last() =~= a + t.drop_last());
        assert((b + t).drop_last() =~= b + t.drop_last());
    }
}

/// A doubled slash anywhere in a path spells the same path as a single one.
pub proof fn doubled_slash_is_single(a: Seq<char>, b: Seq<char>)
    ensures
        normalized(a.push('/').push('/') + b) == normalized(a.push('/') + b),
{
    let one = a.push('/');
    let two = one.push('/');
    assert(two.drop_last() =~= one);
    assert(one.drop_last() =~= a);
    assert(collapsed(one).last() == '/');
    assert(collapsed(two) == collapsed(one));
    lemma_collapsed_append(two, one, b);
}

/// A slash at the end of a path changes nothing.
pub proof fn trailing_slash_is_dropped(a: Seq<char>)
    ensures
        normalized(a.push('/')) == normalized(a),
{
    assert(a.push('/').drop_last() =~= a);
    let c = collapsed(a);
    if c.len() > 0 && c.last() == '/' {
        assert(collapsed(a.push('/')) == c);
    } else {
        assert(collapsed(a.push('/')) == c.push('/'));
        assert(c.push('/').drop_last() =~= c);
    }
}

/// Normalizing gives one spelling for all spellings of a path: it changes nothing a second time, a
/// doubled slash counts as one slash, and a slash at the end counts as none.
pub proof fn spellings_of_one_path(s: Seq<char>, a: Seq<char>, b: Seq<char>)
    ensures
        normalized(normalized(s)) == normalized(s),
        normalized(a + seq!['/', '/'] + b) == normalized(a + seq!['/'] + b),
        normalized(a + seq!['/']) == normalized(a),
{
    normalized_idempotent(s);
    doubled_slash_is_single(a, b);
    trailing_slash_is_dropped(a);
    assert(a + seq!['/', '/'] =~= a.push('/').push('/'));
    assert(a + seq!['/'] =~= a.push('/'));
}

/// Every address that is accepted is valid.
pub proof fn accepted_addresses_are_valid(namespace: Seq<char>, path: Seq<char>)
    ensures
        address_of(namespace, path) matches Ok(a) ==> a.valid(),
{
    normalized_is_canonical(path);
}

/// An address is valid if its namespace holds only letters and digits, and its path starts with
/// one and holds only these and dots.
pub proof fn lemma_plain_address_valid(a: Address)
    requires
        a.namespace.len() > 0,
        a.path.len() > 0,
        forall|i: int|
            0 <= i < a.namespace.len() ==> is_ascii_alnum(#[trigger] a.namespace[i]),
        is_ascii_alnum(a.path[0]),
        forall|i: int|
            0 <= i < a.path.len() ==> is_ascii_alnum(#[trigger] a.path[i]) || a.path[i] == '.',
    ensures
        a.valid(),
{
    let s = a.path;
    assert forall|i: int| 0 <= i < s.len() implies #[trigger] s[i] != '/' && path_char(s[i]) by {
        assert(is_ascii_alnum(s[i]) || s[i] == '.');
    }
    assert forall|i: int| 0 <= i < a.namespace.len() implies namespace_char(
        #[trigger] a.namespace[i],
    ) by {
        assert(is_ascii_alnum(a.namespace[i]));
    }
    assert forall|i: int, j: int| #[trigger] is_segment(s, i, j) implies !is_dots(
        s.subrange(i, j),
    ) by {
        assert(i == 0);
        assert(j == s.len());
        assert(s.subrange(i, j)[0] == s[0]);
    }
    assert(a.namespace[0] != '.');
}

/// Reading back the text of a valid address gives the address.
pub proof fn spelled_address_reads_back(a: Address)
    requires
        a.valid(),
    ensures
        parsed_address(a.spelled()) == Ok::<Address, GamePathError>(a),
{
    let s = a.spelled();
    let k = a.namespace.len() as int;
    assert forall|i: int| 0 <= i < k implies s[i] != ':' by {
        assert(namespace_char(a.namespace[i]));
    }
    crate::text::lemma_first_index_is(s, ':', k);
    assert(s.take(k) =~= a.namespace);
    assert(s.skip(k + 1) =~= a.path);
    canonical_is_fixed(a.path);
}

/// The one spelling that stands for all spellings of the same path: runs of slashes shrink to one
/// slash, and slashes at the end are dropped. Letters keep their case.
pub fn normalize_path(s: &str) -> (path: String)
    ensures
        path@ == normalized(s@),
{
    let chars = chars_of(s);
    let mut out: Vec<char> = Vec::new();
    let mut prev_slash = false;
    let mut i: usize = 0;
    while i < chars.len()
        invariant
            i <= chars@.len(),
            out@ == collapsed(chars@.take(i as int)),
            prev_slash == (out@.len() > 0 && out@.last() == '/'),
        decreases chars@.len() - i,
    {
        let c = chars[i];
        proof {
            assert(chars@.take(i as int + 1).drop_last() =~= chars@.take(i as int));
        }
        if c == '/' {
            if !prev_slash {
                out.push(c);
            }
            prev_slash = true;
        } else {
            out.push(c);
            prev_slash = false;
        }
        i += 1;
    }
    proof {
        assert(chars@.take(i as int) =~= chars@);
    }
    while out.len() > 0 && out[out.len() - 1] == '/'
        invariant
            trimmed(out@) == normalized(s@),
        decreases out@.len(),
    {
        let ghost before = out@;
        out.pop();
        proof {
            assert(out@ =~= before.drop_last());
        }
    }
    let path = string_of(&out, 0, out.len());
    proof {
        assert(path@ =~= out@);
    }
    path
}

fn namespace_allows(c: char) -> (b: bool)
    ensures
        b == namespace_char(c),
{
    ('0' <= c && c <= '9') || ('a' <= c && c <= 'z') || ('A' <= c && c <= 'Z') || c == '_' || c
        == '-' || c == '.'
}

fn validate_namespace(s: &Vec<char>) -> (r: Result<(), GamePathError>)
    ensures
        r matches Err(e) ==> namespace_objection(s@) == Some(e),
        r is Ok ==> namespace_objection(s@) is None,
{
    if s.len() == 0 {
        return Err(GamePathError::EmptyNamespace);
    }
    if s[0] == '.' {
        return Err(GamePathError::DotNamespace);
    }
    let mut i: usize = 0;
    while i < s.len()
        invariant
            s@.len() > 0,
            s@[0] != '.',
            i <= s@.len(),
            forall|j: int| 0 <= j < i ==> namespace_char(#[trigger] s@[j]),
        decreases s@.len() - i,
    {
        if !namespace_allows(s[i]) {
            return Err(GamePathError::NamespaceCharacter);
        }
        i += 1;
    }
    Ok(())
}

/// Whether some segment is `.` or `..`.
fn contains_dot_segment(s: &Vec<char>) -> (found: bool)
    ensures
        found == has_dot_segment(s@),
{
    let mut start: usize = 0;
    let mut i: usize = 0;
    loop
        invariant
            s@.len() == s.len(),
            start <= i <= s@.len(),
            start == 0 || s@[start - 1] == '/',
            forall|k: int| start <= k < i ==> s@[k] != '/',
            forall|a: int, b: int|
                #[trigger] is_segment(s@, a, b) && b < i ==> !is_dots(s@.subrange(a, b)),
        decreases s@.len() - i,
    {
        if i == s.len() || s[i] == '/' {
            let ghost seg = s@.subrange(start as int, i as int);
            proof {
                assert(is_segment(s@, start as int, i as int));
                assert(seq!['.'].len() == 1);
                assert(seq!['.', '.'].len() == 2);
            }
            if i - start == 1 && s[start] == '.' {
                proof {
                    assert(seg =~= seq!['.']);
                }
                return true;
            }
            if i - start == 2 && s[start] == '.' && s[start + 1] == '.' {
                proof {
                    assert(seg =~= seq!['.', '.']);
                }
                return true;
            }
            proof {
                assert(!is_dots(seg)) by {
                    if is_dots(seg) {
                        if seg == seq!['.'] {
                            assert(seg[0] == '.');
                        } else {
                            assert(seg[0] == '.' && seg[1] == '.');
                        }
                    }
                }
                assert forall|a: int, b: int| #[trigger] is_segment(s@, a, b) && b < i
                    + 1 implies !is_dots(s@.subrange(a, b)) by {
                    if b == i as int {
                        if a < start {
                            assert(s@[start - 1] == '/');
                        } else if a > start {
                            assert(s@[a - 1] == '/');
                        }
                    }
                }
            }
            if i == s.len() {
                return false;
            }
            start = i + 1;
        } else {
            proof {
                assert forall|a: int, b: int| #[trigger] is_segment(s@, a, b) && b < i
                    + 1 implies !is_dots(s@.subrange(a, b)) by {
                    if b == i as int {
                        assert(s@[b] == '/');
                    }
                }
            }
        }
        i += 1;
    }
}

fn validate_path(s: &Vec<char>) -> (r: Result<(), GamePathError>)
    ensures
        r matches Err(e) ==> path_objection(s@) == Some(e),
        r is Ok ==> path_objection(s@) is None,
{
    if s.len() == 0 {
        return Err(GamePathError::EmptyPath);
    }
    if s[0] == '/' {
        return Err(GamePathError::RootedPath);
    }
    if contains_dot_segment(s) {
        return Err(GamePathError::DotSegment);
    }
    let mut i: usize = 0;
    while i < s.len()
        invariant
            s@.len() > 0,
            s@[0] != '/',
            !has_dot_segment(s@),
            i <= s@.len(),
            forall|j: int| 0 <= j < i ==> path_char(#[trigger] s@[j]),
        decreases s@.len() - i,
    {
        let c = s[i];
        if !(namespace_allows(c) || c == '/') {
            return Err(GamePathError::PathCharacter);
        }
        i += 1;
    }
    Ok(())
}

/// A resource address: `vanilla:models/tiles/corridor.glb` names the file
/// `vanilla/models/tiles/corridor.glb` below a pack root.
///
/// Paths are kept in their canonical spelling, so that equal addresses name equal files.
#[derive(Debug, PartialOrd, Ord, Hash)]
pub struct GamePath {
    namespace: String,
    path: String,
}

impl View for GamePath {
    type V = Address;

    closed spec fn view(&self) -> Address {
        Address { namespace: self.namespace@, path: self.path@ }
    }
}

impl GamePath {
    #[verifier::type_invariant]
    closed spec fn well_formed(&self) -> bool {
        self@.valid()
    }

    /// The address of `path` in `namespace`, with the path brought to its canonical spelling.
    pub fn new(namespace: &str, path: &str) -> (r: Result<GamePath, GamePathError>)
        ensures
            r matches Ok(p) ==> address_of(namespace@, path@) == Ok::<Address, GamePathError>(p@)
                && p@.valid(),
            r matches Err(e) ==> address_of(namespace@, path@) == Err::<Address, GamePathError>(e),
    {
        let path_text = normalize_path(path);
        let path_chars = chars_of(path_text.as_str());
        let namespace_chars = chars_of(namespace);
        match validate_namespace(&namespace_chars) {
            Ok(()) => {},
            Err(e) => {
                return Err(e);
            },
        }
        match validate_path(&path_chars) {
            Ok(()) => {},
            Err(e) => {
                return Err(e);
            },
        }
        let namespace_text = string_of(&namespace_chars, 0, namespace_chars.len());
        proof {
            assert(namespace_text@ =~= namespace@);
            accepted_addresses_are_valid(namespace@, path@);
        }
        Ok(GamePath { namespace: namespace_text, path: path_text })
    }

    /// Reads `namespace:path`; the first colon separates the two.
    pub fn parse(s: &str) -> (r: Result<GamePath, GamePathError>)
        ensures
            r matches Ok(p) ==> parsed_address(s@) == Ok::<Address, GamePathError>(p@)
                && p@.valid(),
            r matches Err(e) ==> parsed_address(s@) == Err::<Address, GamePathError>(e),
    {
        let chars = chars_of(s);
        let mut k: usize = 0;
        while k < chars.len() && chars[k] != ':'
            invariant
                k <= chars@.len(),
                forall|j: int| 0 <= j < k ==> chars@[j] != ':',
            decreases chars@.len() - k,
        {
            k += 1;
        }
        proof {
            crate::text::lemma_first_index(chars@, ':');
            if k < chars@.len() {
                crate::text::lemma_first_index_is(chars@, ':', k as int);
            }
        }
        if k == chars.len() {
            return Err(GamePathError::MissingSeparator);
        }
        let namespace = string_of(&chars, 0, k);
        let path = string_of(&chars, k + 1, chars.len());
        proof {
            assert(namespace@ =~= s@.take(k as int));
            assert(path@ =~= s@.skip(k as int + 1));
        }
        GamePath::new(namespace.as_str(), path.as_str())
    }

    /// The part before the colon.
    pub fn namespace(&self) -> (s: &str)
        ensures
            s@ == self@.namespace,
    {
        self.namespace.as_str()
    }

    /// The part after the colon.
    pub fn path(&self) -> (s: &str)
        ensures
            s@ == self@.path,
            self@.valid(),
    {
        proof {
            use_type_invariant(self);
        }
        self.path.as_str()
    }

    /// The text `namespace:path`.
    pub fn to_string(&self) -> (s: String)
        ensures
            s@ == self@.spelled(),
            parsed_address(s@) == Ok::<Address, GamePathError>(self@),
    {
        proof {
            use_type_invariant(self);
            spelled_address_reads_back(self@);
        }
        let mut s = self.namespace.clone();
        s.push(':');
        s.append(self.path.as_str());
        s
    }

    /// The file below the pack root `root`: `root/namespace/path`.
    pub fn resolve(&self, root: &str) -> (file: String)
        ensures
            file@ == joined(joined(root@, self@.namespace), self@.path),
    {
        let dir = join_path(root, self.namespace.as_str());
        join_path(dir.as_str(), self.path.as_str())
    }
}

impl Clone for GamePath {
    fn clone(&self) -> (copy: GamePath)
        ensures
            copy@ == self@,
    {
        proof {
            use_type_invariant(self);
        }
        GamePath { namespace: self.namespace.clone(), path: self.path.clone() }
    }
}

impl PartialEq for GamePath {
    fn eq(&self, other: &GamePath) -> (same: bool) {
        self.namespace == other.namespace && self.path == other.path
    }
}

impl vstd::std_specs::cmp::PartialEqSpecImpl for GamePath {
    open spec fn obeys_eq_spec() -> bool {
        true
    }

    open spec fn eq_spec(&self, other: &GamePath) -> bool {
        self@ == other@
    }
}

impl Eq for GamePath {

}

impl core::str::FromStr for GamePath {
    type Err = GamePathError;

    /// Reads `namespace:path`, as `parse` does.
    fn from_str(s: &str) -> (r: Result<GamePath, GamePathError>)
        ensures
            r matches Ok(p) ==> parsed_address(s@) == Ok::<Address, GamePathError>(p@)
                && p@.valid(),
            r matches Err(e) ==> parsed_address(s@) == Err::<Address, GamePathError>(e),
    {
        GamePath::parse(s)
    }
}

/// An address is accepted exactly where its namespace is not empty, does not begin with a dot and
/// has only letters, digits, `_`, `-` and `.`, and its path, spelled out, is not empty, does not
/// begin with a slash, has no segment of one or two dots, and has only such characters and
/// slashes. It then is that namespace with that path.
pub proof fn addresses_are_accepted_by_their_letters(namespace: Seq<char>, path: Seq<char>)
    ensures
        ({
            let p = normalized(path);
            &&& address_of(namespace, path) is Ok <==> {
                &&& namespace.len() > 0
                &&& namespace[0] != '.'
                &&& forall|i: int|
                    0 <= i < namespace.len() ==> {
                        let c = #[trigger] namespace[i];
                        ||| '0' <= c <= '9'
                        ||| 'a' <= c <= 'z'
                        ||| 'A' <= c <= 'Z'
                        ||| c == '_'
                        ||| c == '-'
                        ||| c == '.'
                    }
                &&& p.len() > 0
                &&& p[0] != '/'
                &&& !has_dot_segment(p)
                &&& forall|i: int|
                    0 <= i < p.len() ==> {
                        let c = #[trigger] p[i];
                        ||| '0' <= c <= '9'
                        ||| 'a' <= c <= 'z'
                        ||| 'A' <= c <= 'Z'
                        ||| c == '_'
                        ||| c == '-'
                        ||| c == '.'
                        ||| c == '/'
                    }
            }
            &&& address_of(namespace, path) matches Ok(a) ==> a.namespace == namespace && a.path
                == p
        }),
{
    let p = normalized(path);
    if namespace_objection(namespace) == Some(GamePathError::NamespaceCharacter) {
        let i = choose|i: int| 0 <= i < namespace.len() && !namespace_char(#[trigger] namespace[i]);
        assert(!namespace_char(namespace[i]));
    }
    if path_objection(p) == Some(GamePathError::PathCharacter) {
        let i = choose|i: int| 0 <= i < p.len() && !path_char(#[trigger] p[i]);
        assert(!path_char(p[i]));
    }
}

/// What is wrong with an address is told in order: the namespace before the path, what is empty
/// before how it begins, and characters last.
pub proof fn objections_come_in_order(namespace: Seq<char>, path: Seq<char>)
    ensures
        namespace.len() == 0 ==> address_of(namespace, path) == Err::<Address, GamePathError>(
            GamePathError::EmptyNamespace,
        ),
        namespace.len() > 0 && namespace[0] == '.' ==> address_of(namespace, path) == Err::<
            Address,
            GamePathError,
        >(GamePathError::DotNamespace),
        address_of(namespace, path) == Err::<Address, GamePathError>(
            GamePathError::NamespaceCharacter,
        ) <==> namespace.len() > 0 && namespace[0] != '.' && exists|i: int|
            0 <= i < namespace.len() && !namespace_char(#[trigger] namespace[i]),
        namespace_objection(namespace) is None && normalized(path).len() == 0 ==> address_of(
            namespace,
            path,
        ) == Err::<Address, GamePathError>(GamePathError::EmptyPath),
        namespace_objection(namespace) is None && normalized(path).len() > 0 && normalized(path)[0]
            == '/' ==> address_of(namespace, path) == Err::<Address, GamePathError>(
            GamePathError::RootedPath,
        ),
        namespace_objection(namespace) is None && normalized(path).len() > 0 && normalized(path)[0]
            != '/' && has_dot_segment(normalized(path)) ==> address_of(namespace, path) == Err::<
            Address,
            GamePathError,
        >(GamePathError::DotSegment),
{
}

/// A path with a step to itself or upwards, at its begin, in its middle or at its end, has a segment
/// of dots; one without any dot has none.
pub proof fn steps_upwards_are_segments_of_dots(a: Seq<char>, b: Seq<char>, dots: Seq<char>)
    requires
        dots == seq!['.'] || dots == seq!['.', '.'],
    ensures
        has_dot_segment(dots),
        has_dot_segment(dots + seq!['/'] + b),
        has_dot_segment(a + seq!['/'] + dots),
        has_dot_segment(a + seq!['/'] + dots + seq!['/'] + b),
        (forall|i: int| 0 <= i < a.len() ==> #[trigger] a[i] != '.') ==> !has_dot_segment(a),
{
    let n = dots.len() as int;
    assert(dots.subrange(0, n) =~= dots);
    assert(is_segment(dots, 0, n));
    let s1 = dots + seq!['/'] + b;
    assert(s1.subrange(0, n) =~= dots);
    assert(is_segment(s1, 0, n));
    let m = a.len() as int + 1;
    let s2 = a + seq!['/'] + dots;
    assert(s2.subrange(m, m + n) =~= dots);
    assert(is_segment(s2, m, m + n));
    let s3 = a + seq!['/'] + dots + seq!['/'] + b;
    assert(s3.subrange(m, m + n) =~= dots);
    assert(is_segment(s3, m, m + n));
    if has_dot_segment(a) && forall|i: int| 0 <= i < a.len() ==> #[trigger] a[i] != '.' {
        let (i, j) = choose|i: int, j: int| #[trigger]
            is_segment(a, i, j) && is_dots(a.subrange(i, j));
        let t = a.subrange(i, j);
        assert(t.len() == j - i);
        assert(t[0] == '.');
        assert(t[0] == a[i]);
    }
}

/// A text is taken apart at its first colon; without one it is no address.
pub proof fn addresses_are_split_at_the_first_colon(namespace: Seq<char>, path: Seq<char>)
    requires
        forall|i: int| 0 <= i < namespace.len() ==> #[trigger] namespace[i] != ':',
    ensures
        parsed_address(namespace + seq![':'] + path) == address_of(namespace, path),
        parsed_address(namespace) == Err::<Address, GamePathError>(GamePathError::MissingSeparator),
{
    let s = namespace + seq![':'] + path;
    let k = namespace.len() as int;
    assert(s[k] == ':');
    assert forall|i: int| 0 <= i < k implies s[i] != ':' by {
        assert(s[i] == namespace[i]);
    }
    crate::text::lemma_first_index_is(s, ':', k);
    assert(s.take(k) =~= namespace);
    assert(s.skip(k + 1) =~= path);
    crate::text::lemma_first_index(namespace, ':');
    if namespace.contains(':') {
        let i = choose|i: int| 0 <= i < namespace.len() && namespace[i] == ':';
        assert(namespace[i] != ':');
    }
}

} // verus!
