//! The serial link: which device to talk to, and the session that waits for
//! the device, asks for its dump and collects it.

use vstd::prelude::*;
use vstd::string::StrSliceExecFns;

verus! {

/// The line that asks the device for its dump.
pub const DUMP_COMMAND: &'static str = "dump\n";

/// The line that ends the device's command mode.
pub const EXIT_COMMAND: &'static str = "exit\n";

/// What `str::to_lowercase` makes of a text.
pub uninterp spec fn lower_of(s: Seq<char>) -> Seq<char>;

/// Relies on str::to_lowercase: the result depends on the characters alone,
/// and an empty text stays empty.
#[verifier::external_body]
fn lowercase(s: &str) -> (r: String)
    ensures
        r@ == lower_of(s@),
        s@.len() == 0 ==> r@.len() == 0,
{
    s.to_lowercase()
}

/// `needle` occurs in `hay`.
pub open spec fn has_infix(hay: Seq<char>, needle: Seq<char>) -> bool {
    exists|i: int| 0 <= i <= hay.len() - needle.len() && #[trigger] hay.subrange(i, i + needle.len()) == needle
}

/// Relies on str::contains with a `&str` pattern: true exactly where `needle`
/// occurs in `hay`.
#[verifier::external_body]
fn contains_text(hay: &str, needle: &str) -> (r: bool)
    ensures
        r == has_infix(hay@, needle@),
{
    hay.contains(needle)
}

/// Whether a manufacturer name, already folded to lower case, names the vendor.
pub fn mentions_arduino(folded: &str) -> (r: bool)
    ensures
        r == has_infix(folded@, "arduino"@),
{
    contains_text(folded, "arduino")
}

/// The manufacturer field of a USB port names the vendor, in any case.
pub open spec fn names_vendor(manufacturer: Option<String>) -> bool {
    match manufacturer {
        Some(m) => has_infix(lower_of(m@), "arduino"@),
        None => false,
    }
}

/// Whether a USB manufacturer string names the vendor, in any case.
pub fn is_arduino_manufacturer(manufacturer: &Option<String>) -> (r: bool)
    ensures
        r == names_vendor(*manufacturer),
{
    match manufacturer {
        Some(m) => {
            let folded = lowercase(m.as_str());
            mentions_arduino(folded.as_str())
        },
        None => false,
    }
}

/// The port at `i` is a USB port of the vendor; `ports` holds, for each port,
/// the manufacturer field of its USB descriptor, or `None` for a port that is
/// not USB.
pub open spec fn is_vendor_port(ports: Seq<Option<Option<String>>>, i: int) -> bool {
    0 <= i < ports.len() && ports[i] is Some && names_vendor(ports[i]->Some_0)
}

/// The first port of the vendor, if any; `ports` holds, for each port, the
/// manufacturer field of its USB descriptor, or `None` for a port that is not USB.
pub fn first_arduino_port(ports: &Vec<Option<Option<String>>>) -> (r: Option<usize>)
    ensures
        match r {
            Some(i) => is_vendor_port(ports@, i as int) && forall|j: int| 0 <= j < i ==> !is_vendor_port(ports@, j),
            None => forall|j: int| !is_vendor_port(ports@, j),
        },
{
    let mut i: usize = 0;
    while i < ports.len()
        invariant
            i <= ports@.len(),
            forall|j: int| 0 <= j < i ==> !is_vendor_port(ports@, j),
        decreases ports@.len() - i,
    {
        match &ports[i] {
            Some(manufacturer) => {
                if is_arduino_manufacturer(manufacturer) {
                    return Some(i);
                }
            },
            None => {},
        }
        i = i + 1;
    }
    None
}

/// The line starts with the device's ready marker `/>`.
pub open spec fn ready_prefix(line: Seq<char>) -> bool {
    line.len() >= 2 && line[0] == '/' && line[1] == '>'
}

/// Whether a line of the device's output is its ready prompt.
pub fn is_terminal_input(line: Option<&str>) -> (r: bool)
    ensures
        r == match line {
            Some(l) => ready_prefix(l@),
            None => false,
        },
{
    match line {
        Some(l) => l.unicode_len() >= 2 && l.get_char(0) == '/' && l.get_char(1) == '>',
        None => false,
    }
}

/// The position of the last line feed in `t`, or -1.
pub open spec fn last_newline(t: Seq<char>) -> int
    decreases t.len(),
{
    if t.len() == 0 {
        -1
    } else if t.last() == '\n' {
        t.len() - 1
    } else {
        last_newline(t.drop_last())
    }
}

/// The last line of a text: what follows its last line break, a final line
/// feed aside; `None` for an empty text.
pub open spec fn last_line(s: Seq<char>) -> Option<Seq<char>> {
    if s.len() == 0 {
        None
    } else {
        let t = if s.last() == '\n' { s.drop_last() } else { s };
        Some(t.subrange(last_newline(t) + 1, t.len() as int))
    }
}

/// The device shows its ready prompt as the last line of `s`.
pub open spec fn shows_ready(s: Seq<char>) -> bool {
    match last_line(s) {
        Some(l) => ready_prefix(l),
        None => false,
    }
}

/// The end-of-dump sentinel `%$` starts at `p`.
pub open spec fn sentinel_at(s: Seq<char>, p: int) -> bool {
    0 <= p && p + 1 < s.len() && s[p] == '%' && s[p + 1] == '$'
}

/// The first sentinel of `s` starts at `p`.
pub open spec fn first_sentinel_at(s: Seq<char>, p: int) -> bool {
    sentinel_at(s, p) && forall|q: int| 0 <= q < p ==> !sentinel_at(s, q)
}

pub open spec fn no_sentinel(s: Seq<char>) -> bool {
    forall|q: int| !sentinel_at(s, q)
}

proof fn lemma_last_newline_bounds(t: Seq<char>)
    ensures
        -1 <= last_newline(t) < t.len(),
        last_newline(t) >= 0 ==> t[last_newline(t)] == '\n',
    decreases t.len(),
{
    if t.len() > 0 && t.last() != '\n' {
        lemma_last_newline_bounds(t.drop_last());
    }
}

/// Whether the last line of `buf` is the ready prompt.
pub fn ends_with_ready_line(buf: &Vec<char>) -> (r: bool)
    ensures
        r == shows_ready(buf@),
{
    let len = buf.len();
    if len == 0 {
        return false;
    }
    let end: usize = if buf[len - 1] == '\n' { len - 1 } else { len };
    let ghost t = buf@.subrange(0, end as int);
    assert(t =~= (if buf@.last() == '\n' { buf@.drop_last() } else { buf@ }));
    let mut j: usize = end;
    while j > 0 && buf[j - 1] != '\n'
        invariant
            j <= end <= buf.len(),
            t == buf@.subrange(0, end as int),
            last_newline(t) == last_newline(buf@.subrange(0, j as int)),
        decreases j,
    {
        assert(buf@.subrange(0, j as int).drop_last() =~= buf@.subrange(0, j - 1));
        j = j - 1;
    }
    proof {
        lemma_last_newline_bounds(t);
        let line = t.subrange(last_newline(t) + 1, t.len() as int);
        assert(last_newline(t) + 1 == j);
        assert(line =~= buf@.subrange(j as int, end as int));
    }
    end - j >= 2 && buf[j] == '/' && buf[j + 1] == '>'
}

/// The position of the first sentinel of `buf`, if any.
pub fn find_sentinel(buf: &Vec<char>) -> (r: Option<usize>)
    ensures
        match r {
            Some(p) => first_sentinel_at(buf@, p as int),
            None => no_sentinel(buf@),
        },
{
    let mut i: usize = 0;
    while i < buf.len() && buf.len() - i >= 2
        invariant
            i <= buf.len(),
            forall|q: int| 0 <= q < i ==> !sentinel_at(buf@, q),
        decreases buf.len() - i,
    {
        if buf[i] == '%' && buf[i + 1] == '$' {
            return Some(i);
        }
        i = i + 1;
    }
    None
}

fn append_chars(buf: &mut Vec<char>, chunk: &str)
    ensures
        final(buf)@ == old(buf)@ + chunk@,
{
    let n = chunk.unicode_len();
    let mut i: usize = 0;
    while i < n
        invariant
            n == chunk@.len(),
            i <= n,
            buf@ == old(buf)@ + chunk@.subrange(0, i as int),
        decreases n - i,
    {
        buf.push(chunk.get_char(i));
        i = i + 1;
        assert(buf@ =~= old(buf)@ + chunk@.subrange(0, i as int));
    }
    assert(chunk@.subrange(0, n as int) =~= chunk@);
}

/// Relies on `FromIterator<char>` for `String` (through `collect`): the string
/// holds the characters in order.
#[verifier::external_body]
fn chars_to_string(v: &Vec<char>) -> (r: String)
    ensures
        r@ == v@,
{
    v.iter().collect()
}

/// Where a session stands.
#[derive(Clone, Copy, Debug, PartialEq, Eq, Structural)]
pub enum Phase {
    /// Reading until the device shows its ready prompt.
    AwaitingReady,
    /// The dump was asked for; reading until its sentinel.
    AwaitingDump,
    /// The dump came whole.
    Complete,
    /// The device went quiet in the middle of the dump.
    Failed,
}

/// What a read on the link gave.
pub enum Event {
    /// Text came.
    Data(String),
    /// The read timed out with nothing.
    Timeout,
    /// The read failed otherwise; taken as noise on the link.
    ReadError,
}

/// What the caller does next.
#[derive(Debug)]
pub enum Action {
    /// Read again.
    Read,
    /// Send the dump command, then read again.
    RequestDump,
    /// Send the exit command; the dump is this text.
    Finish(String),
    /// Give up: the device stopped sending mid-dump.
    Fail,
}

/// One attempt to collect a dump from the device.
pub struct Session {
    pub phase: Phase,
    /// What was read in the current phase.
    pub buffer: Vec<char>,
    /// Whether anything was read in the current phase.
    pub received: bool,
}

impl Session {
    pub fn new() -> (r: Session)
        ensures
            r.phase == Phase::AwaitingReady,
            r.buffer@.len() == 0,
            !r.received,
    {
        Session { phase: Phase::AwaitingReady, buffer: Vec::new(), received: false }
    }

    /// Whether the session has ended.
    pub fn is_done(&self) -> (r: bool)
        ensures
            r == (self.phase == Phase::Complete || self.phase == Phase::Failed),
    {
        self.phase == Phase::Complete || self.phase == Phase::Failed
    }

    /// Takes in one read's outcome and says what to do next.
    pub fn step(&mut self, event: Event) -> (a: Action)
        requires
            old(self).phase == Phase::AwaitingReady || old(self).phase == Phase::AwaitingDump,
        ensures
            match event {
                Event::Data(chunk) => {
                    let s = old(self).buffer@ + chunk@;
                    &&& final(self).received
                    &&& if old(self).phase == Phase::AwaitingReady {
                        &&& final(self).phase == Phase::AwaitingReady
                        &&& final(self).buffer@ == s
                        &&& a is Read
                    } else if no_sentinel(s) {
                        &&& final(self).phase == Phase::AwaitingDump
                        &&& final(self).buffer@ == s
                        &&& a is Read
                    } else {
                        exists|p: int| {
                            &&& #[trigger] first_sentinel_at(s, p)
                            &&& final(self).phase == Phase::Complete
                            &&& final(self).buffer@ == s.subrange(0, p + 2)
                            &&& a is Finish
                            &&& a->Finish_0@ == s.subrange(0, p + 2)
                        }
                    }
                },
                Event::Timeout => if old(self).phase == Phase::AwaitingReady {
                    if old(self).received && shows_ready(old(self).buffer@) {
                        &&& final(self).phase == Phase::AwaitingDump
                        &&& final(self).buffer@.len() == 0
                        &&& !final(self).received
                        &&& a is RequestDump
                    } else {
                        &&& *final(self) == *old(self)
                        &&& a is Read
                    }
                } else if old(self).received {
                    &&& final(self).phase == Phase::Failed
                    &&& final(self).buffer@ == old(self).buffer@
                    &&& final(self).received
                    &&& a is Fail
                } else {
                    &&& *final(self) == *old(self)
                    &&& a is Read
                },
                Event::ReadError => {
                    &&& *final(self) == *old(self)
                    &&& a is Read
                },
            },
    {
        match event {
            Event::Data(chunk) => {
                append_chars(&mut self.buffer, chunk.as_str());
                self.received = true;
                if self.phase == Phase::AwaitingReady {
                    return Action::Read;
                }
                match find_sentinel(&self.buffer) {
                    None => Action::Read,
                    Some(p) => {
                        let len = self.buffer.len();
                        assert(sentinel_at(self.buffer@, p as int) && p + 1 < len);
                        self.buffer.truncate(p + 2);
                        self.phase = Phase::Complete;
                        assert(self.buffer@ =~= (old(self).buffer@ + chunk@).subrange(0, p + 2));
                        Action::Finish(chars_to_string(&self.buffer))
                    },
                }
            },
            Event::Timeout => {
                if self.phase == Phase::AwaitingReady {
                    if self.received && ends_with_ready_line(&self.buffer) {
                        self.phase = Phase::AwaitingDump;
                        self.buffer = Vec::new();
                        self.received = false;
                        Action::RequestDump
                    } else {
                        Action::Read
                    }
                } else if self.received {
                    self.phase = Phase::Failed;
                    Action::Fail
                } else {
                    Action::Read
                }
            },
            Event::ReadError => Action::Read,
        }
    }
}

} // verus!
