//! Relative paths below the shared root.
//!
//! A raw path coming from a client is accepted only when it cannot leave the
//! shared root by its text: it has no `..` segment and does not start at a
//! separator (which would make joining it under the root discard the root).
//!
//! Which characters separate segments depends on the server's platform: `/`
//! always, and the platform's own separator (`std::path::MAIN_SEPARATOR`, which
//! is `\` on Windows). The functions here take that separator as `native`;
//! where it is `/`, a `\` is an ordinary character of a name.
use vstd::prelude::*;

verus! {

/// `c` separates path segments on a server whose own separator is `native`.
pub open spec fn is_separator(c: char, native: char) -> bool {
    c == '/' || c == native
}

/// A `..` segment starts at index `i` of `s`.
pub open spec fn parent_segment_at(s: Seq<char>, i: int, native: char) -> bool {
    &&& 0 <= i
    &&& i + 2 <= s.len()
    &&& s[i] == '.'
    &&& s[i + 1] == '.'
    &&& (i == 0 || is_separator(s[i - 1], native))
    &&& (i + 2 == s.len() || is_separator(s[i + 2], native))
}

/// `s` has a segment that names the parent directory.
pub open spec fn has_parent_segment(s: Seq<char>, native: char) -> bool {
    exists|i: int| parent_segment_at(s, i, native)
}

/// `s` starts at a separator, so it names a place independent of the root.
pub open spec fn is_absolute(s: Seq<char>, native: char) -> bool {
    s.len() > 0 && is_separator(s[0], native)
}

/// `s` stays inside the shared root once joined under it.
pub open spec fn is_confined(s: Seq<char>, native: char) -> bool {
    !has_parent_segment(s, native) && !is_absolute(s, native)
}

/// The text of a child `name` of the directory `dir`: a `/` is put between
/// the two unless `dir` is the root or already ends with a separator.
pub open spec fn joined(dir: Seq<char>, name: Seq<char>, native: char) -> Seq<char> {
    if dir.len() == 0 || is_separator(dir.last(), native) {
        dir + name
    } else {
        dir + seq!['/'] + name
    }
}

/// `candidate` is `root` itself or lies below it, segment by segment.
pub open spec fn is_within(root: Seq<char>, candidate: Seq<char>, native: char) -> bool {
    ||| candidate == root
    ||| {
        &&& root.len() < candidate.len()
        &&& candidate.subrange(0, root.len() as int) == root
        &&& ((root.len() > 0 && is_separator(root.last(), native)) || is_separator(
            candidate[root.len() as int],
            native,
        ))
    }
}

/// A raw path was refused because it could leave the shared root.
#[derive(Debug, Clone, Copy, PartialEq, Eq)]
pub struct TraversalError;

/// A path below the shared root, accepted by [`resolve`] for the separator `native`.
pub struct RelativePath {
    text: String,
    native: char,
}

impl View for RelativePath {
    type V = Seq<char>;

    closed spec fn view(&self) -> Seq<char> {
        self.text@
    }
}

impl RelativePath {
    /// The platform separator this path was checked against.
    pub closed spec fn separator(&self) -> char {
        self.native
    }

    #[verifier::type_invariant]
    closed spec fn confined(&self) -> bool {
        is_confined(self.text@, self.native)
    }

    /// The path as text; empty for the root itself.
    pub fn as_str(&self) -> (r: &str)
        ensures
            r@ == self@,
            is_confined(r@, self.separator()),
    {
        proof {
            use_type_invariant(self);
        }
        self.text.as_str()
    }

    /// Whether this is the shared root itself.
    pub fn is_root(&self) -> (r: bool)
        ensures
            r == (self@.len() == 0),
    {
        self.text.as_str().is_empty()
    }

    /// The location of this path under `root`, as text.
    pub fn under(&self, root: &str) -> (r: String)
        ensures
            r@ == joined(root@, self@, self.separator()),
    {
        join_text(root, self.text.as_str(), self.native)
    }

    /// The path of the entry `name` inside this directory, accepted only when
    /// the result stays inside the shared root (an upload target, for instance).
    pub fn child(&self, name: &str) -> (r: Result<RelativePath, TraversalError>)
        ensures
            match r {
                Ok(p) => p@ == joined(self@, name@, self.separator()) && p.separator()
                    == self.separator(),
                Err(_) => !is_confined(joined(self@, name@, self.separator()), self.separator()),
            },
            r is Ok <==> is_confined(joined(self@, name@, self.separator()), self.separator()),
    {
        let text = join_text(self.text.as_str(), name, self.native);
        resolve(text.as_str(), self.native)
    }
}

/// The text of the child `name` of `dir`, as [`joined`] describes it.
pub fn join_text(dir: &str, name: &str, native: char) -> (r: String)
    ensures
        r@ == joined(dir@, name@, native),
{
    let mut r = dir.to_owned();
    let n = dir.unicode_len();
    if n > 0 && !is_separator_char(dir.get_char(n - 1), native) {
        r.append("/");
        proof {
            reveal_strlit("/");
        }
    }
    r.append(name);
    proof {
        assert(dir@.len() > 0 ==> dir@.last() == dir@[n - 1]);
        assert(r@ =~= joined(dir@, name@, native));
    }
    r
}

/// Whether `c` separates path segments on a server whose own separator is `native`.
pub fn is_separator_char(c: char, native: char) -> (r: bool)
    ensures
        r == is_separator(c, native),
{
    c == '/' || c == native
}

/// Whether the text `s` holds a `..` segment.
pub fn contains_parent_segment(s: &str, native: char) -> (r: bool)
    ensures
        r == has_parent_segment(s@, native),
{
    let n = s.unicode_len();
    let mut i: usize = 0;
    while i < n
        invariant
            n == s@.len(),
            i <= n,
            forall|j: int| 0 <= j < i ==> !parent_segment_at(s@, j, native),
        decreases n - i,
    {
        if n - i >= 2 && s.get_char(i) == '.' && s.get_char(i + 1) == '.' {
            let starts = i == 0 || is_separator_char(s.get_char(i - 1), native);
            let ends = i + 2 == n || is_separator_char(s.get_char(i + 2), native);
            if starts && ends {
                assert(parent_segment_at(s@, i as int, native));
                return true;
            }
        }
        i += 1;
    }
    false
}

/// Validates a client-supplied path for a server whose own separator is
/// `native`: it is refused when it holds a `..` segment or starts at a
/// separator, and accepted unchanged otherwise.
pub fn resolve(raw: &str, native: char) -> (r: Result<RelativePath, TraversalError>)
    ensures
        match r {
            Ok(p) => p@ == raw@ && p.separator() == native,
            Err(_) => !is_confined(raw@, native),
        },
        r is Ok <==> is_confined(raw@, native),
{
    if contains_parent_segment(raw, native) {
        return Err(TraversalError);
    }
    if raw.unicode_len() > 0 && is_separator_char(raw.get_char(0), native) {
        return Err(TraversalError);
    }
    Ok(RelativePath { text: raw.to_owned(), native })
}

/// The relative destinations of the uploaded files `names` in the directory
/// `target`: all of them when the target and every destination stay inside
/// the shared root, and an error otherwise, before anything is written.
pub fn upload_destinations(target: &str, names: &Vec<String>, native: char) -> (r: Result<
    Vec<RelativePath>,
    TraversalError,
>)
    ensures
        r is Ok <==> is_confined(target@, native) && forall|i: int|
            0 <= i < names@.len() ==> is_confined(
                joined(target@, (#[trigger] names@[i])@, native),
                native,
            ),
        r matches Ok(v) ==> v@.len() == names@.len() && forall|i: int|
            0 <= i < names@.len() ==> (#[trigger] v@[i])@ == joined(target@, names@[i]@, native)
                && v@[i].separator() == native,
{
    let dir = match resolve(target, native) {
        Ok(d) => d,
        Err(e) => return Err(e),
    };
    let mut out: Vec<RelativePath> = Vec::new();
    let mut i: usize = 0;
    while i < names.len()
        invariant
            i <= names@.len(),
            dir@ == target@,
            dir.separator() == native,
            out@.len() == i,
            forall|k: int| 0 <= k < i ==> is_confined(
                joined(target@, (#[trigger] names@[k])@, native),
                native,
            ),
            forall|k: int|
                0 <= k < i ==> (#[trigger] out@[k])@ == joined(target@, names@[k]@, native)
                    && out@[k].separator() == native,
        decreases names@.len() - i,
    {
        match dir.child(names[i].as_str()) {
            Ok(p) => out.push(p),
            Err(e) => return Err(e),
        }
        i += 1;
    }
    Ok(out)
}

/// Whether `candidate` is `root` itself or lies below it, segment by segment;
/// used on canonical paths, where links have been followed.
pub fn stays_within(root: &str, candidate: &str, native: char) -> (r: bool)
    ensures
        r == is_within(root@, candidate@, native),
{
    let n = root.unicode_len();
    let m = candidate.unicode_len();
    if n > m {
        proof {
            assert(candidate@ != root@);
        }
        return false;
    }
    let mut i: usize = 0;
    while i < n
        invariant
            n == root@.len(),
            m == candidate@.len(),
            n <= m,
            i <= n,
            candidate@.subrange(0, i as int) == root@.subrange(0, i as int),
        decreases n - i,
    {
        if root.get_char(i) != candidate.get_char(i) {
            proof {
                assert(candidate@.subrange(0, n as int)[i as int] == candidate@[i as int]);
                assert(candidate@ != root@);
            }
            return false;
        }
        proof {
            assert(candidate@.subrange(0, i + 1) =~= candidate@.subrange(0, i as int).push(
                candidate@[i as int],
            ));
            assert(root@.subrange(0, i + 1) =~= root@.subrange(0, i as int).push(root@[i as int]));
        }
        i += 1;
    }
    proof {
        assert(root@.subrange(0, n as int) =~= root@);
    }
    if n == m {
        proof {
            assert(candidate@ =~= candidate@.subrange(0, n as int));
        }
        return true;
    }
    let ends = n > 0 && is_separator_char(root.get_char(n - 1), native);
    proof {
        assert(n > 0 ==> root@.last() == root@[n - 1]);
        assert(candidate@ != root@);
    }
    ends || is_separator_char(candidate.get_char(n), native)
}

/// Any raw path with a `..` segment is refused by [`resolve`].
pub proof fn lemma_parent_segment_refused(raw: Seq<char>, i: int, native: char)
    requires
        parent_segment_at(raw, i, native),
    ensures
        !is_confined(raw, native),
{
}

} // verus!
