//! The client-side navigation state machine.
//!
//! The navigator holds the directory currently shown as a list of directory
//! names below the shared root. Every change of directory issues a listing
//! request tagged with a fresh id; a response is shown only when it answers the
//! most recent request, so a late answer to a superseded request is dropped.
use vstd::prelude::*;
use crate::listing::{DirectoryEntry, ListError, is_dot_name};
use crate::path::{is_confined, parent_segment_at};

verus! {

/// `name` can stand as one directory name inside a path.
pub open spec fn is_segment_name(name: Seq<char>) -> bool {
    &&& name.len() > 0
    &&& !is_dot_name(name)
    &&& forall|i: int| 0 <= i < name.len() ==> #[trigger] name[i] != '/'
}

/// The path text of the directory reached through `segments`: each name
/// followed by a separator; empty for the root.
pub open spec fn path_text(segments: Seq<Seq<char>>) -> Seq<char>
    decreases segments.len(),
{
    if segments.len() == 0 {
        Seq::empty()
    } else {
        path_text(segments.drop_last()) + segments.last() + seq!['/']
    }
}

/// The directory above the one reached through `segments`; the root is its own parent.
pub open spec fn parent_segments(segments: Seq<Seq<char>>) -> Seq<Seq<char>> {
    if segments.len() == 0 {
        segments
    } else {
        segments.drop_last()
    }
}

/// The id that follows `id`; ids wrap around after the largest `u64`.
pub open spec fn next_request_id(id: u64) -> u64 {
    if id == u64::MAX {
        0
    } else {
        (id + 1) as u64
    }
}

/// Where the navigator stands.
#[derive(Clone, Debug, PartialEq, Eq)]
pub enum NavState {
    AtRoot,
    AtSubpath(String),
}

/// A request for the listing of `path`, tagged with `id`.
#[derive(Clone, Debug, PartialEq, Eq)]
pub struct FetchRequest {
    pub id: u64,
    pub path: String,
}

/// The listing on display, with the request it answered.
#[derive(Debug, PartialEq, Eq)]
pub struct ShownListing {
    pub request_id: u64,
    pub path: String,
    pub result: Result<Vec<DirectoryEntry>, ListError>,
}

/// The navigation state of one client.
pub struct Navigator {
    segments: Vec<String>,
    latest_request: u64,
    shown: Option<ShownListing>,
}

/// `after` issued `req` from `before`: a fresh id for the directory `after`
/// stands in, while the listing on display is kept until an answer comes.
pub open spec fn issued(before: Navigator, after: Navigator, req: FetchRequest) -> bool {
    &&& after.latest() == next_request_id(before.latest())
    &&& req.id == after.latest()
    &&& req.path@ == path_text(after.segments())
    &&& after.shown() == before.shown()
}

/// `after` is `before` once the answer `result` to request `id` came in:
/// it is shown if and only if `id` is the most recent request.
pub open spec fn received(
    before: Navigator,
    id: u64,
    result: Result<Vec<DirectoryEntry>, ListError>,
    after: Navigator,
    accepted: bool,
) -> bool {
    &&& accepted == (id == before.latest())
    &&& after.segments() == before.segments()
    &&& after.latest() == before.latest()
    &&& accepted ==> after.shown() == Some(
        (id, path_text(before.segments()), result),
    )
    &&& !accepted ==> after.shown() == before.shown()
}

impl Navigator {
    /// The directory names from the root down to the current directory.
    pub closed spec fn segments(&self) -> Seq<Seq<char>> {
        self.segments@.map_values(|s: String| s@)
    }

    /// The id of the most recent request.
    pub closed spec fn latest(&self) -> u64 {
        self.latest_request
    }

    /// The listing on display: the request it answered, its path and its result.
    pub closed spec fn shown(&self) -> Option<(u64, Seq<char>, Result<Vec<DirectoryEntry>, ListError>)> {
        match self.shown {
            Some(s) => Some((s.request_id, s.path@, s.result)),
            None => None,
        }
    }

    /// Every directory name on the way down is a single path segment.
    pub closed spec fn well_formed(&self) -> bool {
        forall|i: int| 0 <= i < self.segments@.len() ==> is_segment_name(#[trigger] self.segments@[i]@)
    }

    /// A navigator at the root, with the request for the root's listing.
    pub fn new() -> (r: (Navigator, FetchRequest))
        ensures
            r.0.well_formed(),
            r.0.segments().len() == 0,
            r.0.latest() == 0,
            r.0.shown() is None,
            r.1.id == 0,
            r.1.path@.len() == 0,
    {
        let n = Navigator { segments: Vec::new(), latest_request: 0, shown: None };
        proof {
            assert(n.segments() =~= Seq::<Seq<char>>::empty());
        }
        (n, FetchRequest { id: 0, path: String::new() })
    }

    /// The path text of the current directory.
    pub fn current_path(&self) -> (r: String)
        ensures
            r@ == path_text(self.segments()),
    {
        let mut r = String::new();
        let mut i: usize = 0;
        while i < self.segments.len()
            invariant
                i <= self.segments@.len(),
                r@ == path_text(self.segments().subrange(0, i as int)),
            decreases self.segments@.len() - i,
        {
            proof {
                assert(self.segments().subrange(0, i + 1).drop_last() =~= self.segments().subrange(
                    0,
                    i as int,
                ));
            }
            r.append(self.segments[i].as_str());
            r.append("/");
            proof {
                reveal_strlit("/");
            }
            i += 1;
        }
        proof {
            assert(self.segments().subrange(0, i as int) =~= self.segments());
        }
        r
    }

    /// Where the navigator stands: at the root, or in the directory whose path
    /// text is given.
    pub fn state(&self) -> (r: NavState)
        ensures
            r is AtRoot <==> self.segments().len() == 0,
            r matches NavState::AtSubpath(p) ==> p@ == path_text(self.segments()),
    {
        if self.segments.len() == 0 {
            NavState::AtRoot
        } else {
            NavState::AtSubpath(self.current_path())
        }
    }

    /// The listing on display, if an answer to the most recent request has come in.
    pub fn displayed(&self) -> (r: Option<&ShownListing>)
        ensures
            r matches Some(s) ==> self.shown() == Some((s.request_id, s.path@, s.result)),
            r is None <==> self.shown() is None,
    {
        self.shown.as_ref()
    }

    /// Takes a fresh id and asks for the listing of the current directory.
    fn issue(&mut self) -> (r: FetchRequest)
        requires
            old(self).well_formed(),
        ensures
            final(self).well_formed(),
            issued(*old(self), *final(self), r),
            final(self).segments() == old(self).segments(),
    {
        self.latest_request = if self.latest_request == u64::MAX {
            0
        } else {
            self.latest_request + 1
        };
        FetchRequest { id: self.latest_request, path: self.current_path() }
    }

    /// Asks for the listing of the current directory again.
    pub fn refresh(&mut self) -> (r: FetchRequest)
        requires
            old(self).well_formed(),
        ensures
            final(self).well_formed(),
            issued(*old(self), *final(self), r),
            final(self).segments() == old(self).segments(),
    {
        self.issue()
    }

    /// Goes to the parent directory (staying at the root when already there)
    /// and asks for its listing.
    pub fn go_up(&mut self) -> (r: FetchRequest)
        requires
            old(self).well_formed(),
        ensures
            final(self).well_formed(),
            issued(*old(self), *final(self), r),
            final(self).segments() == parent_segments(old(self).segments()),
    {
        let ghost before = self.segments@;
        if self.segments.len() > 0 {
            self.segments.pop();
            proof {
                assert(self.segments() =~= parent_segments(before.map_values(|s: String| s@)));
            }
        }
        self.issue()
    }

    /// Enters the directory `name` of the current directory and asks for its
    /// listing; the name `..` goes up instead. A name that is not a single
    /// directory name (empty, `.`, or holding a `/`) changes nothing and
    /// asks for nothing.
    pub fn enter_directory(&mut self, name: &str) -> (r: Option<FetchRequest>)
        requires
            old(self).well_formed(),
        ensures
            final(self).well_formed(),
            r is None <==> !is_segment_name(name@) && name@ != seq!['.', '.'],
            r matches Some(req) ==> issued(*old(self), *final(self), req),
            r matches Some(req) ==> final(self).segments() == (if name@ == seq!['.', '.'] {
                parent_segments(old(self).segments())
            } else {
                old(self).segments().push(name@)
            }),
            r is None ==> *final(self) == *old(self),
    {
        let n = name.unicode_len();
        if n == 2 && name.get_char(0) == '.' && name.get_char(1) == '.' {
            proof {
                assert(name@ =~= seq!['.', '.']);
            }
            return Some(self.go_up());
        }
        if !is_directory_name(name) {
            proof {
                assert(name@ != seq!['.', '.']);
            }
            return None;
        }
        proof {
            assert(name@ != seq!['.', '.']);
        }
        let ghost before = self.segments@;
        self.segments.push(name.to_owned());
        proof {
            assert(self.segments() =~= before.map_values(|s: String| s@).push(name@));
        }
        Some(self.issue())
    }

    /// The path, relative to the shared root, of the file `name` in the current
    /// directory; the navigation state does not change.
    pub fn open_file(&self, name: &str) -> (r: String)
        ensures
            r@ == path_text(self.segments()) + name@,
    {
        let mut r = self.current_path();
        r.append(name);
        r
    }

    /// Takes the answer to request `id`. It is shown, and `true` returned, only
    /// when `id` is the most recent request; any other answer is dropped.
    pub fn receive(&mut self, id: u64, result: Result<Vec<DirectoryEntry>, ListError>) -> (r: bool)
        requires
            old(self).well_formed(),
        ensures
            final(self).well_formed(),
            received(*old(self), id, result, *final(self), r),
    {
        if id != self.latest_request {
            return false;
        }
        let path = self.current_path();
        self.shown = Some(ShownListing { request_id: id, path, result });
        true
    }
}

/// Whether `name` can stand as one directory name inside a path.
pub fn is_directory_name(name: &str) -> (r: bool)
    ensures
        r == is_segment_name(name@),
{
    let n = name.unicode_len();
    if n == 0 {
        return false;
    }
    if n <= 2 && name.get_char(0) == '.' && (n == 1 || name.get_char(1) == '.') {
        proof {
            if n == 1 {
                assert(name@ =~= seq!['.']);
            } else {
                assert(name@ =~= seq!['.', '.']);
            }
        }
        return false;
    }
    proof {
        if name@ == seq!['.'] {
            assert(name@[0] == '.');
        }
        if name@ == seq!['.', '.'] {
            assert(name@[0] == '.' && name@[1] == '.');
        }
    }
    let mut i: usize = 0;
    while i < n
        invariant
            n == name@.len(),
            i <= n,
            forall|k: int| 0 <= k < i ==> #[trigger] name@[k] != '/',
        decreases n - i,
    {
        if name.get_char(i) == '/' {
            return false;
        }
        i += 1;
    }
    true
}

proof fn lemma_path_text_confined(segments: Seq<Seq<char>>)
    requires
        forall|k: int| 0 <= k < segments.len() ==> is_segment_name(#[trigger] segments[k]),
    ensures
        is_confined(path_text(segments), '/'),
        path_text(segments).len() > 0 ==> path_text(segments).last() == '/',
    decreases segments.len(),
{
    if segments.len() > 0 {
        let rest = segments.drop_last();
        let n = segments.last();
        assert(is_segment_name(segments[segments.len() - 1]));
        assert forall|k: int| 0 <= k < rest.len() implies is_segment_name(#[trigger] rest[k]) by {
            assert(rest[k] == segments[k]);
        }
        lemma_path_text_confined(rest);
        let p = path_text(rest);
        let full = path_text(segments);
        assert(full == p + n + seq!['/']);
        assert(n[0] != '/');
        if p.len() == 0 {
            assert(full[0] == n[0]);
        } else {
            assert(full[0] == p[0]);
        }
        assert forall|i: int| !parent_segment_at(full, i, '/') by {
            if parent_segment_at(full, i, '/') {
                if i + 2 <= p.len() {
                    assert(p[p.len() - 1] == '/');
                    assert(i + 2 < p.len());
                    assert(full[i] == p[i] && full[i + 1] == p[i + 1] && full[i + 2] == p[i + 2]);
                    assert(i > 0 ==> full[i - 1] == p[i - 1]);
                    assert(parent_segment_at(p, i, '/'));
                } else if i + 1 == p.len() {
                    assert(full[i] == p[i]);
                } else if i == p.len() {
                    assert(full[i] == n[0] && full[i + 1] == n[1]);
                    if n.len() == 2 {
                        assert(n =~= seq!['.', '.']);
                    } else {
                        assert(full[i + 2] == n[2]);
                    }
                } else {
                    assert(i - 1 >= p.len());
                    if i - 1 < p.len() + n.len() {
                        assert(full[i - 1] == n[i - 1 - p.len()]);
                    }
                }
            }
        }
    }
}

impl Navigator {
    /// Every path a well-formed navigator asks for stays inside the shared root
    /// of a server whose only separator is `/`, so it passes the path check there.
    pub proof fn lemma_requests_confined(&self)
        requires
            self.well_formed(),
        ensures
            is_confined(path_text(self.segments()), '/'),
    {
        assert forall|k: int| 0 <= k < self.segments().len() implies is_segment_name(
            #[trigger] self.segments()[k],
        ) by {
            assert(self.segments()[k] == self.segments@[k]@);
        }
        lemma_path_text_confined(self.segments());
    }
}

/// A late answer to a superseded request is never shown: when a request for
/// one directory is followed by a request for another, and the answer to the
/// second arrives before the answer to the first, the second stays on display.
pub proof fn lemma_stale_answer_dropped(
    n0: Navigator,
    n1: Navigator,
    first: FetchRequest,
    n2: Navigator,
    second: FetchRequest,
    second_result: Result<Vec<DirectoryEntry>, ListError>,
    n3: Navigator,
    second_accepted: bool,
    first_result: Result<Vec<DirectoryEntry>, ListError>,
    n4: Navigator,
    first_accepted: bool,
)
    requires
        issued(n0, n1, first),
        issued(n1, n2, second),
        received(n2, second.id, second_result, n3, second_accepted),
        received(n3, first.id, first_result, n4, first_accepted),
    ensures
        second_accepted,
        !first_accepted,
        n4.shown() == Some((second.id, second.path@, second_result)),
{
}

} // verus!
