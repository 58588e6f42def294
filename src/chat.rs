//! The shared chat log.
//!
//! Messages are sanitized against markup injection, checked for length, stamped
//! with the time they arrived and appended; nothing is ever changed or removed.
//! Readers see a window of the most recent messages, oldest first. The log is
//! stored as JSON, one `[author, body, timestamp]` triple per message.
//!
//! A `ChatLog` is changed only through `&mut`, so appends are serialized: the
//! process that shares one wraps it in a lock and writes the stored form after
//! each append, which rules out the lost update of two writers that each
//! rewrite a copy they read earlier.
use vstd::prelude::*;

verus! {

/// How many messages a reader is shown.
pub const RECENT_WINDOW: usize = 5;

/// A sanitized body must be shorter than this many characters.
pub const BODY_LIMIT: usize = 999;

/// What a message looks like to the contracts: author, body, timestamp.
pub type MessageView = (Seq<char>, Seq<char>, u64);

/// The text `ammonia::clean` leaves of `s` once markup that could run script is removed.
pub uninterp spec fn cleaned(s: Seq<char>) -> Seq<char>;

/// The records `serde_json` reads from the JSON text `text` as a list of
/// `(String, String, u64)` triples, or `None` where it refuses the text.
pub uninterp spec fn parsed_records(text: Seq<char>) -> Option<Seq<MessageView>>;

/// The JSON text `serde_json` writes for a list of `(String, String, u64)` triples.
pub uninterp spec fn records_json(records: Seq<MessageView>) -> Seq<char>;

/// Relies on `ammonia::clean` with its default policy: the result depends on the text alone.
#[verifier::external_body]
fn sanitize(s: &str) -> (r: String)
    ensures
        r@ == cleaned(s@),
{
    ammonia::clean(s)
}

/// Relies on `serde_json::from_str` read as `Vec<(String, String, u64)>`.
#[verifier::external_body]
fn parse_records(text: &str) -> (r: Option<Vec<(String, String, u64)>>)
    ensures
        r is Some <==> parsed_records(text@) is Some,
        r matches Some(v) ==> v.deep_view() == parsed_records(text@)->Some_0,
{
    serde_json::from_str::<Vec<(String, String, u64)>>(text).ok()
}

/// Relies on `serde_json::to_string` of `Vec<(String, String, u64)>`, which
/// fails only where a `Serialize` impl fails or a map has non-string keys:
/// neither can happen for strings and integers.
#[verifier::external_body]
fn encode_records(records: &Vec<(String, String, u64)>) -> (r: String)
    ensures
        r@ == records_json(records.deep_view()),
{
    serde_json::to_string(records).expect("strings and integers always serialize")
}

/// The author a message is shown under: the sanitized name, or `Anonymous`
/// when nothing is left of it.
pub open spec fn shown_author(raw: Seq<char>) -> Seq<char> {
    author_from_clean(cleaned(raw))
}

/// The author shown for the sanitized name `clean`: `Anonymous` when it is empty.
pub open spec fn author_from_clean(clean: Seq<char>) -> Seq<char> {
    if clean.len() == 0 {
        "Anonymous"@
    } else {
        clean
    }
}

/// A body is kept when its sanitized text has between 1 and 998 characters.
pub open spec fn body_accepted(raw: Seq<char>) -> bool {
    clean_body_accepted(cleaned(raw))
}

/// A sanitized body is kept when it has between 1 and 998 characters.
pub open spec fn clean_body_accepted(clean: Seq<char>) -> bool {
    1 <= clean.len() < BODY_LIMIT
}

/// The message stored for a post by `author` with `body` at time `now`.
pub open spec fn message_for(author: Seq<char>, body: Seq<char>, now: u64) -> MessageView {
    (shown_author(author), cleaned(body), now)
}

/// The log after a post: one message more when the body is accepted, the same log otherwise.
pub open spec fn after_post(log: Seq<MessageView>, author: Seq<char>, body: Seq<char>, now: u64) -> Seq<
    MessageView,
> {
    if body_accepted(body) {
        log.push(message_for(author, body, now))
    } else {
        log
    }
}

/// The last `k` messages of `log`, oldest first; all of them when there are fewer.
pub open spec fn recent_window(log: Seq<MessageView>, k: nat) -> Seq<MessageView> {
    if log.len() <= k {
        log
    } else {
        log.subrange(log.len() - k, log.len() as int)
    }
}

/// The log after the posts `posts` (author, body, time), one after another.
pub open spec fn after_posts(log: Seq<MessageView>, posts: Seq<MessageView>) -> Seq<MessageView>
    decreases posts.len(),
{
    if posts.len() == 0 {
        log
    } else {
        let p = posts.last();
        after_post(after_posts(log, posts.drop_last()), p.0, p.1, p.2)
    }
}

/// The messages that the posts `posts` store.
pub open spec fn messages_of(posts: Seq<MessageView>) -> Seq<MessageView> {
    posts.map_values(|p: MessageView| message_for(p.0, p.1, p.2))
}

/// The text of a store, when it exists.
pub open spec fn text_of(stored: Option<&str>) -> Option<Seq<char>> {
    match stored {
        Some(t) => Some(t@),
        None => None,
    }
}

/// The log as it is stored: a missing or empty store holds no messages.
pub open spec fn stored_log(stored: Option<Seq<char>>) -> Option<Seq<MessageView>> {
    match stored {
        None => Some(Seq::empty()),
        Some(text) => if text.len() == 0 {
            Some(Seq::empty())
        } else {
            parsed_records(text)
        },
    }
}

/// A post whose sanitized body is empty changes nothing: the log, and so the
/// window readers see, stay as they were.
pub proof fn lemma_empty_post_ignored(log: Seq<MessageView>, author: Seq<char>, body: Seq<char>, now: u64)
    requires
        cleaned(body).len() == 0,
    ensures
        after_post(log, author, body, now) == log,
        after_post(log, author, body, now).len() == log.len(),
        recent_window(after_post(log, author, body, now), RECENT_WINDOW as nat) == recent_window(
            log,
            RECENT_WINDOW as nat,
        ),
{
}

/// Accepted posts, one after another, each add their message at the end.
pub proof fn lemma_posts_appended(log: Seq<MessageView>, posts: Seq<MessageView>)
    requires
        forall|i: int| 0 <= i < posts.len() ==> body_accepted(#[trigger] posts[i].1),
    ensures
        after_posts(log, posts) == log + messages_of(posts),
    decreases posts.len(),
{
    if posts.len() == 0 {
        assert(log + messages_of(posts) =~= log);
    } else {
        let rest = posts.drop_last();
        assert forall|i: int| 0 <= i < rest.len() implies body_accepted(#[trigger] rest[i].1) by {
            assert(rest[i] == posts[i]);
        }
        lemma_posts_appended(log, rest);
        assert(body_accepted(posts[posts.len() - 1].1));
        assert(log + messages_of(posts) =~= (log + messages_of(rest)).push(
            message_for(posts.last().0, posts.last().1, posts.last().2),
        ));
    }
}

/// After at least `k` accepted posts in a row, the window of `k` messages holds
/// exactly the messages of the last `k` posts, oldest first.
pub proof fn lemma_recent_after_posts(log: Seq<MessageView>, posts: Seq<MessageView>, k: nat)
    requires
        forall|i: int| 0 <= i < posts.len() ==> body_accepted(#[trigger] posts[i].1),
        k <= posts.len(),
    ensures
        recent_window(after_posts(log, posts), k) == messages_of(posts).subrange(
            posts.len() - k,
            posts.len() as int,
        ),
{
    lemma_posts_appended(log, posts);
    let all = log + messages_of(posts);
    if all.len() <= k {
        assert(log.len() == 0 && posts.len() == k);
        assert(all =~= messages_of(posts).subrange(0, k as int));
    } else {
        assert(all.subrange(all.len() - k, all.len() as int) =~= messages_of(posts).subrange(
            posts.len() - k,
            posts.len() as int,
        ));
    }
}

/// Two accepted posts made one after the other are both kept, whichever goes
/// first: neither overwrites the other.
pub proof fn lemma_both_posts_kept(
    log: Seq<MessageView>,
    a: MessageView,
    b: MessageView,
)
    requires
        body_accepted(a.1),
        body_accepted(b.1),
    ensures
        after_post(after_post(log, a.0, a.1, a.2), b.0, b.1, b.2).len() == log.len() + 2,
        after_post(after_post(log, a.0, a.1, a.2), b.0, b.1, b.2).contains(message_for(a.0, a.1, a.2)),
        after_post(after_post(log, a.0, a.1, a.2), b.0, b.1, b.2).contains(message_for(b.0, b.1, b.2)),
{
    let l = after_post(after_post(log, a.0, a.1, a.2), b.0, b.1, b.2);
    assert(l[log.len() as int] == message_for(a.0, a.1, a.2));
    assert(l[log.len() + 1int] == message_for(b.0, b.1, b.2));
}

/// One chat message.
#[derive(Clone, Debug, PartialEq, Eq)]
pub struct ChatMessage {
    pub author: String,
    pub body: String,
    /// Seconds since the Unix epoch.
    pub timestamp: u64,
}

impl View for ChatMessage {
    type V = MessageView;

    open spec fn view(&self) -> MessageView {
        (self.author@, self.body@, self.timestamp)
    }
}

impl ChatMessage {
    fn copied(&self) -> (r: ChatMessage)
        ensures
            r@ == self@,
    {
        ChatMessage { author: self.author.clone(), body: self.body.clone(), timestamp: self.timestamp }
    }
}

/// Why a stored log could not be read.
#[derive(Clone, Copy, Debug, PartialEq, Eq)]
pub enum LoadError {
    /// The store holds text that is not a list of messages.
    Malformed,
}

/// The message for a post by `author` with `body` at time `now`, or `None`
/// when the sanitized body is empty or too long and the post is dropped.
pub fn make_message(author: &str, body: &str, now: u64) -> (r: Option<ChatMessage>)
    ensures
        r is Some <==> body_accepted(body@),
        r matches Some(m) ==> m@ == message_for(author@, body@, now),
{
    let clean_body = sanitize(body);
    let clean_author = sanitize(author);
    message_from_clean(clean_author, clean_body, now)
}

/// The message for a post whose author and body are already sanitized, or
/// `None` when the body is empty or has 999 characters or more.
pub fn message_from_clean(author: String, body: String, now: u64) -> (r: Option<ChatMessage>)
    ensures
        r is Some <==> clean_body_accepted(body@),
        r matches Some(m) ==> m@ == (author_from_clean(author@), body@, now),
{
    let n = body.as_str().unicode_len();
    if n < 1 || n >= BODY_LIMIT {
        return None;
    }
    let shown = if author.as_str().unicode_len() == 0 {
        String::from_str("Anonymous")
    } else {
        author
    };
    Some(ChatMessage { author: shown, body, timestamp: now })
}

/// An append-only sequence of chat messages, oldest first.
#[derive(Clone)]
pub struct ChatLog {
    messages: Vec<ChatMessage>,
}

impl View for ChatLog {
    type V = Seq<MessageView>;

    closed spec fn view(&self) -> Seq<MessageView> {
        self.messages@.map_values(|m: ChatMessage| m@)
    }
}

impl ChatLog {
    /// A log with no messages.
    pub fn new() -> (r: ChatLog)
        ensures
            r@ == Seq::<MessageView>::empty(),
    {
        let r = ChatLog { messages: Vec::new() };
        proof {
            assert(r@ =~= Seq::<MessageView>::empty());
        }
        r
    }

    /// The number of messages.
    pub fn len(&self) -> (r: usize)
        ensures
            r == self@.len(),
    {
        self.messages.len()
    }

    /// All messages, oldest first.
    pub fn messages(&self) -> (r: &Vec<ChatMessage>)
        ensures
            r@.map_values(|m: ChatMessage| m@) == self@,
    {
        &self.messages
    }

    /// Adds `message` at the end.
    fn push(&mut self, message: ChatMessage)
        ensures
            final(self)@ == old(self)@.push(message@),
    {
        let ghost before = self.messages@;
        self.messages.push(message);
        proof {
            assert(self@ =~= before.map_values(|m: ChatMessage| m@).push(message@));
        }
    }

    /// Posts `body` by `author` at time `now`: the sanitized message is appended
    /// when its body is accepted, and nothing happens otherwise. Returns whether
    /// it was appended.
    pub fn append(&mut self, author: &str, body: &str, now: u64) -> (r: bool)
        ensures
            r == body_accepted(body@),
            final(self)@ == after_post(old(self)@, author@, body@, now),
    {
        match make_message(author, body, now) {
            Some(m) => {
                self.push(m);
                true
            },
            None => false,
        }
    }

    /// The last `k` messages, oldest first; all of them when there are fewer.
    pub fn recent(&self, k: usize) -> (r: Vec<ChatMessage>)
        ensures
            r@.map_values(|m: ChatMessage| m@) == recent_window(self@, k as nat),
    {
        let n = self.messages.len();
        let start: usize = if n <= k {
            0
        } else {
            n - k
        };
        let mut r: Vec<ChatMessage> = Vec::new();
        let mut i: usize = start;
        while i < n
            invariant
                n == self.messages@.len(),
                start <= i <= n,
                r@.map_values(|m: ChatMessage| m@) == self@.subrange(start as int, i as int),
            decreases n - i,
        {
            let ghost before = r@;
            r.push(self.messages[i].copied());
            proof {
                assert(r@.map_values(|m: ChatMessage| m@) =~= before.map_values(
                    |m: ChatMessage| m@,
                ).push(self@[i as int]));
                assert(self@.subrange(start as int, i + 1) =~= self@.subrange(
                    start as int,
                    i as int,
                ).push(self@[i as int]));
            }
            i += 1;
        }
        proof {
            if n <= k {
                assert(self@.subrange(0, n as int) =~= self@);
            }
        }
        r
    }

    /// Posts `body` by `author` at time `now` as [`ChatLog::append`] does, and
    /// returns the recent window afterwards.
    pub fn post_message(&mut self, author: &str, body: &str, now: u64) -> (r: Vec<ChatMessage>)
        ensures
            final(self)@ == after_post(old(self)@, author@, body@, now),
            r@.map_values(|m: ChatMessage| m@) == recent_window(final(self)@, RECENT_WINDOW as nat),
    {
        self.append(author, body, now);
        self.recent(RECENT_WINDOW)
    }

    /// Reads a stored log; `None` stands for a store that does not exist yet.
    /// A missing or empty store is an empty log.
    pub fn load(stored: Option<&str>) -> (r: Result<ChatLog, LoadError>)
        ensures
            r is Ok <==> stored_log(text_of(stored)) is Some,
            r matches Ok(log) ==> log@ == stored_log(text_of(stored))->Some_0,
    {
        let text = match stored {
            None => return Ok(ChatLog::new()),
            Some(t) => t,
        };
        if text.unicode_len() == 0 {
            return Ok(ChatLog::new());
        }
        let records = match parse_records(text) {
            None => return Err(LoadError::Malformed),
            Some(v) => v,
        };
        let mut log = ChatLog::new();
        let mut i: usize = 0;
        while i < records.len()
            invariant
                i <= records@.len(),
                log@ == records.deep_view().subrange(0, i as int),
            decreases records@.len() - i,
        {
            let rec = &records[i];
            let ghost before = log@;
            log.push(ChatMessage { author: rec.0.clone(), body: rec.1.clone(), timestamp: rec.2 });
            proof {
                assert(records.deep_view().subrange(0, i + 1) =~= before.push(
                    records.deep_view()[i as int],
                ));
            }
            i += 1;
        }
        proof {
            assert(records.deep_view().subrange(0, i as int) =~= records.deep_view());
        }
        Ok(log)
    }

    /// The stored form of the log.
    pub fn to_json(&self) -> (r: String)
        ensures
            r@ == records_json(self@),
    {
        let mut records: Vec<(String, String, u64)> = Vec::new();
        let mut i: usize = 0;
        while i < self.messages.len()
            invariant
                i <= self.messages@.len(),
                records.deep_view() == self@.subrange(0, i as int),
            decreases self.messages@.len() - i,
        {
            let m = &self.messages[i];
            let ghost before = records.deep_view();
            records.push((m.author.clone(), m.body.clone(), m.timestamp));
            proof {
                assert(records.deep_view() =~= before.push(self@[i as int]));
                assert(self@.subrange(0, i + 1) =~= self@.subrange(0, i as int).push(self@[i as int]));
            }
            i += 1;
        }
        proof {
            assert(self@.subrange(0, i as int) =~= self@);
        }
        encode_records(&records)
    }
}

/// The counter that tells readers the log has changed: it only grows, and
/// stays at its largest value rather than wrapping.
pub struct MessageCounter {
    value: u64,
}

impl MessageCounter {
    /// The current count.
    pub closed spec fn count(&self) -> u64 {
        self.value
    }

    /// A counter at zero.
    pub fn new() -> (r: MessageCounter)
        ensures
            r.count() == 0,
    {
        MessageCounter { value: 0 }
    }

    /// The current count.
    pub fn value(&self) -> (r: u64)
        ensures
            r == self.count(),
    {
        self.value
    }

    /// Counts one more message and returns the new count.
    pub fn bump(&mut self) -> (r: u64)
        ensures
            final(self).count() == (if old(self).count() < u64::MAX {
                (old(self).count() + 1) as u64
            } else {
                u64::MAX
            }),
            r == final(self).count(),
    {
        self.value = self.value.saturating_add(1);
        self.value
    }
}

} // verus!
