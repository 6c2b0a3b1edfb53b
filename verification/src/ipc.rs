//! The instance bus: who hears a frame, who owns the shared role, and how
//! frames travel between processes.
//!
//! Instances of one scope inside a process form a [`Group`] and reach each
//! other directly. Each group has at most one link to the other processes:
//! the process that won the election serves, every other one is its client.
use vstd::prelude::*;
use vstd::bytes;
use vstd::slice::slice_subrange;
use vstd::string::*;

use crate::hosttext;
use crate::hosttext::{hash_bytes, wide};
use crate::text::chars_of;

verus! {

/// Longest frame that is accepted from another process.
pub const MAX_FRAME: u32 = 1_048_576;

/// Why a frame could not be read.
#[derive(Clone, Copy, PartialEq, Eq, Structural, Debug)]
pub enum FrameError {
    /// It claims to be longer than [`MAX_FRAME`].
    TooLarge,
}

/// The length that a frame's first four bytes claim.
pub open spec fn claimed(stream: Seq<u8>) -> int {
    bytes::spec_u32_from_le_bytes(stream.take(4)) as int
}

/// A frame on the wire: its length as four bytes, little-endian, then itself.
pub open spec fn framed(data: Seq<u8>) -> Seq<u8> {
    bytes::spec_u32_to_le_bytes((data.len() % 0x1_0000_0000) as u32) + data
}

/// The first frame of a stream, as far as it has come in.
pub open spec fn first_frame(stream: Seq<u8>) -> Result<Option<Seq<u8>>, FrameError> {
    if stream.len() < 4 {
        Ok(None)
    } else if claimed(stream) > MAX_FRAME {
        Err(FrameError::TooLarge)
    } else if stream.len() < 4 + claimed(stream) {
        Ok(None)
    } else {
        Ok(Some(stream.subrange(4, 4 + claimed(stream))))
    }
}

/// Put a frame on the wire.
pub fn write_frame(data: &[u8]) -> (r: Vec<u8>)
    ensures
        r@ == framed(data@),
{
    let len: u32 = (data.len() as u64 % 0x1_0000_0000) as u32;
    let mut out: Vec<u8> = bytes::u32_to_le_bytes(len);
    out.extend_from_slice(data);
    proof {
        assert(out@ =~= framed(data@));
    }
    out
}

/// Take the first frame of what has come in. `Ok(None)` means that more has
/// to come in first.
pub fn read_frame(stream: &[u8]) -> (r: Result<Option<Vec<u8>>, FrameError>)
    ensures
        match r {
            Ok(Some(frame)) => first_frame(stream@) == Ok::<Option<Seq<u8>>, FrameError>(
                Some(frame@),
            ),
            Ok(None) => first_frame(stream@) == Ok::<Option<Seq<u8>>, FrameError>(None),
            Err(e) => first_frame(stream@) == Err::<Option<Seq<u8>>, FrameError>(e),
        },
{
    if stream.len() < 4 {
        return Ok(None);
    }
    let len: u32 = bytes::u32_from_le_bytes(slice_subrange(stream, 0, 4));
    if len > MAX_FRAME {
        return Err(FrameError::TooLarge);
    }
    if stream.len() < 4 + len as usize {
        return Ok(None);
    }
    Ok(Some(vstd::slice::slice_to_vec(slice_subrange(stream, 4, 4 + len as usize))))
}

/// A frame that is not too long is read back as it was written, whatever
/// follows it on the stream; and its bytes on the wire are exactly four more
/// than its own.
pub proof fn law_frames_read_back(data: Seq<u8>, rest: Seq<u8>)
    requires
        data.len() <= MAX_FRAME,
    ensures
        first_frame(framed(data) + rest) == Ok::<Option<Seq<u8>>, FrameError>(Some(data)),
        framed(data).len() == 4 + data.len(),
        (framed(data) + rest).skip(4 + data.len() as int) == rest,
{
    bytes::lemma_auto_spec_u32_to_from_le_bytes();
    let stream = framed(data) + rest;
    assert(stream.take(4) =~= bytes::spec_u32_to_le_bytes(data.len() as u32));
    assert(stream.subrange(4, 4 + data.len() as int) =~= data);
    assert(stream.skip(4 + data.len() as int) =~= rest);
}

/// A frame that has not come in whole is never read, however it is cut.
pub proof fn law_cut_frames_wait(data: Seq<u8>, n: int)
    requires
        data.len() <= MAX_FRAME,
        0 <= n < framed(data).len(),
    ensures
        first_frame(framed(data).take(n)) == Ok::<Option<Seq<u8>>, FrameError>(None),
{
    bytes::lemma_auto_spec_u32_to_from_le_bytes();
    let part = framed(data).take(n);
    if n >= 4 {
        assert(part.take(4) =~= bytes::spec_u32_to_le_bytes(data.len() as u32));
    }
}

/// Whether a character may stand in a scope's file names.
pub open spec fn is_plain(c: char) -> bool {
    ||| 'a' <= c <= 'z'
    ||| 'A' <= c <= 'Z'
    ||| '0' <= c <= '9'
    ||| c == '.'
    ||| c == '-'
}

/// A scope with everything but plain characters replaced.
pub open spec fn sane(scope: Seq<char>) -> Seq<char> {
    Seq::new(scope.len(), |i: int| if is_plain(scope[i]) { scope[i] } else { '_' })
}

fn push_plain(out: &mut String, scope: &str, i: usize, c: char)
    requires
        i < scope@.len(),
        i < usize::MAX,
        scope@[i as int] == c,
    ensures
        final(out)@ == old(out)@.push(if is_plain(c) { c } else { '_' }),
{
    if ('a' <= c && c <= 'z') || ('A' <= c && c <= 'Z') || ('0' <= c && c <= '9') || c == '.' || c
        == '-' {
        out.append(scope.substring_char(i, i + 1));
        proof {
            assert(out@ =~= old(out)@.push(c));
        }
    } else {
        proof {
            reveal_strlit("_");
        }
        out.append("_");
        proof {
            assert(out@ =~= old(out)@.push('_'));
        }
    }
}

/// A scope as it may stand in a file name.
pub fn sanitize(scope: &str) -> (r: String)
    ensures
        r@ == sane(scope@),
{
    let chars = chars_of(scope);
    let mut out = String::new();
    let mut i: usize = 0;
    while i < chars.len()
        invariant
            chars@ == scope@,
            i <= chars@.len(),
            out@ == sane(scope@).take(i as int),
        decreases chars.len() - i,
    {
        push_plain(&mut out, scope, i, chars[i]);
        proof {
            assert(out@ =~= sane(scope@).take(i + 1));
        }
        i += 1;
    }
    proof {
        assert(sane(scope@).take(i as int) =~= sane(scope@));
    }
    out
}

/// A sanitized scope holds plain characters and underscores only, is as long
/// as the scope, and is sane already: sanitizing it again changes nothing.
pub proof fn law_sane_scopes_are_plain(scope: Seq<char>)
    ensures
        sane(scope).len() == scope.len(),
        forall|i: int|
            0 <= i < scope.len() ==> is_plain(#[trigger] sane(scope)[i]) || sane(scope)[i] == '_',
        sane(sane(scope)) == sane(scope),
{
    assert(sane(sane(scope)) =~= sane(scope));
}

/// Where one scope's socket and lock live, or its pipe.
#[derive(Debug)]
pub struct Endpoint {
    /// File name of the socket.
    pub sock_name: String,
    /// File name of the lock.
    pub lock_name: String,
    /// Name of the pipe, as NUL-terminated UTF-16.
    pub pipe_name: Vec<u16>,
}

/// The hexadecimal digit of a number below sixteen.
pub open spec fn hex_digit(d: int) -> char {
    if d < 10 {
        (('0' as u32) + d) as char
    } else {
        (('a' as u32) + (d - 10)) as char
    }
}

/// The last `n` hexadecimal digits of a number.
pub open spec fn hex(v: int, n: nat) -> Seq<char>
    decreases n,
{
    if n == 0 {
        Seq::empty()
    } else {
        hex(v / 16, (n - 1) as nat).push(hex_digit(v % 16))
    }
}

fn hex_text(d: u64) -> (r: &'static str)
    requires
        d < 16,
    ensures
        r@ == seq![hex_digit(d as int)],
{
    proof {
        reveal_strlit("0");
        reveal_strlit("1");
        reveal_strlit("2");
        reveal_strlit("3");
        reveal_strlit("4");
        reveal_strlit("5");
        reveal_strlit("6");
        reveal_strlit("7");
        reveal_strlit("8");
        reveal_strlit("9");
        reveal_strlit("a");
        reveal_strlit("b");
        reveal_strlit("c");
        reveal_strlit("d");
        reveal_strlit("e");
        reveal_strlit("f");
    }
    let r: &'static str = match d {
        0 => "0",
        1 => "1",
        2 => "2",
        3 => "3",
        4 => "4",
        5 => "5",
        6 => "6",
        7 => "7",
        8 => "8",
        9 => "9",
        10 => "a",
        11 => "b",
        12 => "c",
        13 => "d",
        14 => "e",
        _ => "f",
    };
    proof {
        assert(r@ =~= seq![hex_digit(d as int)]);
    }
    r
}

fn push_hex(out: &mut String, v: u64, n: usize)
    ensures
        final(out)@ == old(out)@ + hex(v as int, n as nat),
    decreases n,
{
    if n == 0 {
        proof {
            assert(old(out)@ + hex(v as int, 0) =~= old(out)@);
        }
    } else {
        push_hex(out, v / 16, n - 1);
        out.append(hex_text(v % 16));
        proof {
            assert(out@ =~= old(out)@ + hex(v as int, n as nat));
        }
    }
}

/// The offset basis that folds a directory into a pipe's name.
pub const PIPE_BASIS: u64 = 0xcbf2_9ce4_8422_2325;

/// The name of a scope's pipe. Pipe names have no directories, so the
/// directory is folded into the name.
pub open spec fn pipe_name(dir: Seq<u8>, scope: Seq<char>) -> Seq<char> {
    "\\\\.\\pipe\\skuiz-"@ + hex(hosttext::fnv64(PIPE_BASIS, dir) as int, 16) + "-"@ + scope
}

impl Endpoint {
    /// The names of a scope's endpoint.
    pub fn new(dir: &str, scope: &str) -> (r: Self)
        ensures
            r.sock_name@ == "skuiz-"@ + scope@ + ".sock"@,
            r.lock_name@ == "skuiz-"@ + scope@ + ".lock"@,
            r.pipe_name@ == hosttext::utf16(pipe_name(dir.spec_bytes(), scope@)).push(0u16),
    {
        let mut sock_name = String::from_str("skuiz-");
        sock_name.append(scope);
        sock_name.append(".sock");
        let mut lock_name = String::from_str("skuiz-");
        lock_name.append(scope);
        lock_name.append(".lock");
        let mut pipe = String::from_str("\\\\.\\pipe\\skuiz-");
        push_hex(&mut pipe, hash_bytes(PIPE_BASIS, dir.as_bytes()), 16);
        pipe.append("-");
        pipe.append(scope);
        proof {
            assert(pipe@ =~= pipe_name(dir.spec_bytes(), scope@));
        }
        Endpoint { sock_name, lock_name, pipe_name: wide(pipe.as_str()) }
    }
}

/// The key under which a group is found.
pub fn group_key(dir: &str, scope: &str) -> (r: String)
    ensures
        r@ == dir@ + "\0"@ + sane(scope@),
{
    let mut key = String::from_str(dir);
    key.append("\0");
    key.append(sanitize(scope).as_str());
    key
}

/// What a group knows.
pub ghost struct GroupState {
    /// Local instances, longest-lived first.
    pub members: Seq<u64>,
    /// Whether this process won the election.
    pub owns_lock: bool,
    /// Whether the group is going away.
    pub shutdown: bool,
    /// Whether this process is connected to the one that serves.
    pub linked: bool,
    /// Connections from other processes.
    pub clients: Seq<u64>,
}

/// Every number but one.
pub open spec fn other_than(id: u64) -> spec_fn(u64) -> bool {
    |x: u64| x != id
}

/// A group without one of its numbers.
pub open spec fn without(ids: Seq<u64>, id: u64) -> Seq<u64> {
    ids.filter(other_than(id))
}

/// A group without some of its numbers.
pub open spec fn without_all(ids: Seq<u64>, gone: Seq<u64>) -> Seq<u64> {
    ids.filter(|x: u64| !gone.contains(x))
}

/// Everyone but the one to be skipped.
pub open spec fn all_but(ids: Seq<u64>, skip: Option<u64>) -> Seq<u64> {
    match skip {
        Some(id) => without(ids, id),
        None => ids,
    }
}

/// Whether numbers rise strictly.
pub open spec fn rising(ids: Seq<u64>) -> bool {
    forall|i: int, j: int| 0 <= i < j < ids.len() ==> (#[trigger] ids[i]) < (#[trigger] ids[j])
}

/// Where a frame goes beyond this process.
#[derive(Debug)]
pub enum Remote {
    /// To every one of these connections.
    Clients(Vec<u64>),
    /// To the process that serves.
    Server,
    /// Nowhere: there is no link.
    Nowhere,
}

/// What a send has to do.
#[derive(Debug)]
pub struct Delivery {
    /// Local instances to call.
    pub local: Vec<u64>,
    /// Where the frame goes beyond this process.
    pub remote: Remote,
}

/// What a frame from a client has to do.
#[derive(Debug)]
pub struct Relay {
    /// Local instances to call.
    pub local: Vec<u64>,
    /// Connections to pass it on to.
    pub remote: Vec<u64>,
}

/// What the last instance to leave has to close.
#[derive(Debug)]
pub struct Teardown {
    /// Whether to close the connection to the process that serves.
    pub close_link: bool,
    /// Connections from other processes to close.
    pub clients: Vec<u64>,
}

/// Everything shared by the instances of one scope inside this process.
#[derive(Debug)]
pub struct Group {
    members: Vec<u64>,
    next_member: u64,
    owns_lock: bool,
    shutdown: bool,
    linked: bool,
    clients: Vec<u64>,
    next_client: u64,
}

impl View for Group {
    type V = GroupState;

    closed spec fn view(&self) -> GroupState {
        GroupState {
            members: self.members@,
            owns_lock: self.owns_lock,
            shutdown: self.shutdown,
            linked: self.linked,
            clients: self.clients@,
        }
    }
}

fn copy_but(ids: &Vec<u64>, skip: Option<u64>) -> (r: Vec<u64>)
    ensures
        r@ == all_but(ids@, skip),
{
    let mut out: Vec<u64> = Vec::new();
    let mut i: usize = 0;
    proof {
        reveal(Seq::filter);
        assert(ids@.take(0) =~= Seq::empty());
    }
    while i < ids.len()
        invariant
            i <= ids@.len(),
            out@ == all_but(ids@.take(i as int), skip),
        decreases ids.len() - i,
    {
        proof {
            reveal(Seq::filter);
            assert(ids@.take(i + 1).drop_last() =~= ids@.take(i as int));
            assert(ids@.take(i + 1) =~= ids@.take(i as int).push(ids@[i as int]));
        }
        if skip.is_none() || skip.unwrap() != ids[i] {
            out.push(ids[i]);
        }
        i += 1;
    }
    proof {
        assert(ids@.take(i as int) =~= ids@);
    }
    out
}

fn contains(ids: &Vec<u64>, id: u64) -> (r: bool)
    ensures
        r == ids@.contains(id),
{
    let mut i: usize = 0;
    while i < ids.len()
        invariant
            i <= ids@.len(),
            forall|k: int| 0 <= k < i ==> (#[trigger] ids@[k]) != id,
        decreases ids.len() - i,
    {
        if ids[i] == id {
            return true;
        }
        i += 1;
    }
    false
}

fn copy_without(ids: &Vec<u64>, gone: &Vec<u64>) -> (r: Vec<u64>)
    ensures
        r@ == without_all(ids@, gone@),
{
    let mut out: Vec<u64> = Vec::new();
    let mut i: usize = 0;
    proof {
        reveal(Seq::filter);
        assert(ids@.take(0) =~= Seq::empty());
    }
    while i < ids.len()
        invariant
            i <= ids@.len(),
            out@ == without_all(ids@.take(i as int), gone@),
        decreases ids.len() - i,
    {
        proof {
            reveal(Seq::filter);
            assert(ids@.take(i + 1).drop_last() =~= ids@.take(i as int));
        }
        if !contains(gone, ids[i]) {
            out.push(ids[i]);
        }
        i += 1;
    }
    proof {
        assert(ids@.take(i as int) =~= ids@);
    }
    out
}

proof fn lemma_filter_rising(ids: Seq<u64>, keep: spec_fn(u64) -> bool)
    requires
        rising(ids),
    ensures
        rising(ids.filter(keep)),
        forall|x: u64| #[trigger] ids.filter(keep).contains(x) <==> ids.contains(x) && keep(x),
    decreases ids.len(),
{
    reveal(Seq::filter);
    if ids.len() > 0 {
        let rest = ids.drop_last();
        assert(rising(rest)) by {
            assert forall|i: int, j: int| 0 <= i < j < rest.len() implies (#[trigger] rest[i]) < (
            #[trigger] rest[j]) by {
                assert(ids[i] < ids[j]);
            }
        }
        lemma_filter_rising(rest, keep);
        let r = ids.filter(keep);
        let f = rest.filter(keep);
        let last = ids.last();
        assert forall|i: int, j: int| 0 <= i < j < r.len() implies (#[trigger] r[i]) < (
        #[trigger] r[j]) by {
            if j < f.len() {
                assert(f[i] < f[j]);
            } else {
                assert(f.contains(f[i]));
                assert(rest.contains(f[i]));
                let k = choose|k: int| 0 <= k < rest.len() && rest[k] == f[i];
                assert(ids[k] < ids[ids.len() - 1]);
            }
        }
        assert forall|x: u64| #[trigger] r.contains(x) <==> ids.contains(x) && keep(x) by {
            if r.contains(x) {
                let i = choose|i: int| 0 <= i < r.len() && r[i] == x;
                if i < f.len() {
                    assert(f[i] == x);
                    assert(f.contains(x));
                    let k = choose|k: int| 0 <= k < rest.len() && rest[k] == x;
                    assert(ids[k] == x);
                } else {
                    assert(x == last);
                    assert(ids[ids.len() - 1] == x);
                }
            }
            if ids.contains(x) && keep(x) {
                let k = choose|k: int| 0 <= k < ids.len() && ids[k] == x;
                if k < rest.len() {
                    assert(rest[k] == x);
                    assert(rest.contains(x));
                    assert(f.contains(x));
                    let i = choose|i: int| 0 <= i < f.len() && f[i] == x;
                    assert(r[i] == x);
                } else {
                    assert(r[r.len() - 1] == x);
                }
            }
        }
    }
}

/// Skipping one leaves exactly the others, still in order.
pub proof fn lemma_all_but(ids: Seq<u64>, skip: Option<u64>)
    requires
        rising(ids),
    ensures
        rising(all_but(ids, skip)),
        forall|x: u64| #[trigger]
            all_but(ids, skip).contains(x) <==> ids.contains(x) && Some(x) != skip,
{
    match skip {
        Some(id) => {
            lemma_filter_rising(ids, other_than(id));
        },
        None => {},
    }
}

impl Group {
    /// Numbers rise strictly, later ones are larger still, and a process that
    /// serves is nobody's client.
    pub closed spec fn wf(&self) -> bool {
        &&& rising(self.members@)
        &&& forall|i: int| 0 <= i < self.members@.len() ==> (#[trigger] self.members@[i])
            < self.next_member
        &&& rising(self.clients@)
        &&& forall|i: int| 0 <= i < self.clients@.len() ==> (#[trigger] self.clients@[i])
            < self.next_client
        &&& !(self.owns_lock && self.linked)
    }

    /// The number the next instance gets.
    pub closed spec fn upcoming(&self) -> u64 {
        self.next_member
    }

    /// The number the next connection gets.
    pub closed spec fn upcoming_client(&self) -> u64 {
        self.next_client
    }

    /// Members' and clients' numbers rise, and nobody both serves and is a
    /// client.
    pub proof fn law_nobody_serves_and_connects_at_once(&self)
        requires
            self.wf(),
        ensures
            rising(self@.members),
            rising(self@.clients),
            !(self@.owns_lock && self@.linked),
    {
    }

    /// A group nobody has joined yet.
    pub fn new() -> (r: Self)
        ensures
            r.wf(),
            r@ == (GroupState {
                members: Seq::empty(),
                owns_lock: false,
                shutdown: false,
                linked: false,
                clients: Seq::empty(),
            }),
            r.upcoming() == 0,
            r.upcoming_client() == 0,
    {
        Group {
            members: Vec::new(),
            next_member: 0,
            owns_lock: false,
            shutdown: false,
            linked: false,
            clients: Vec::new(),
            next_client: 0,
        }
    }

    /// An instance joins; it is younger than every other.
    pub fn join(&mut self) -> (r: Bus)
        requires
            old(self).wf(),
            old(self).upcoming() < u64::MAX,
        ensures
            final(self).wf(),
            r.id() == old(self).upcoming(),
            !old(self)@.members.contains(r.id()),
            final(self).upcoming() == old(self).upcoming() + 1,
            final(self)@ == (GroupState {
                members: old(self)@.members.push(r.id()),
                ..old(self)@
            }),
            final(self).upcoming_client() == old(self).upcoming_client(),
    {
        let id: u64 = self.next_member;
        self.next_member = id + 1;
        self.members.push(id);
        Bus { id }
    }

    /// An instance leaves. The last one out shuts the group down and says
    /// what there is to close.
    pub fn leave(&mut self, bus: Bus) -> (r: Option<Teardown>)
        requires
            old(self).wf(),
        ensures
            final(self).wf(),
            final(self).upcoming() == old(self).upcoming(),
            final(self).upcoming_client() == old(self).upcoming_client(),
            r is Some <==> without(old(self)@.members, bus.id()).len() == 0,
            final(self)@ == (match r {
                None => GroupState {
                    members: without(old(self)@.members, bus.id()),
                    ..old(self)@
                },
                Some(_) => GroupState {
                    members: Seq::empty(),
                    shutdown: true,
                    linked: false,
                    clients: Seq::empty(),
                    ..old(self)@
                },
            }),
            r matches Some(t) ==> t.close_link == old(self)@.linked && t.clients@ == old(self)@.clients,
    {
        proof {
            lemma_all_but(self.members@, Some(bus.id()));
            assert(all_but(self.members@, Some(bus.id())) == without(self.members@, bus.id()));
        }
        let ghost before = self.members@;
        let left = copy_but(&self.members, Some(bus.id));
        proof {
            assert forall|i: int| 0 <= i < left@.len() implies (#[trigger] left@[i])
                < self.next_member by {
                assert(left@.contains(left@[i]));
                assert(before.contains(left@[i]));
            }
        }
        self.members = left;
        if self.members.len() > 0 {
            return None;
        }
        proof {
            assert(self.members@ =~= Seq::empty());
        }
        self.shutdown = true;
        let close_link: bool = self.linked;
        self.linked = false;
        let clients = copy_but(&self.clients, None);
        self.clients = Vec::new();
        Some(Teardown { close_link, clients })
    }

    /// The longest-lived local instance.
    pub fn owner_id(&self) -> (r: Option<u64>)
        requires
            self.wf(),
        ensures
            r == owner(self@.members),
    {
        if self.members.len() > 0 {
            Some(self.members[0])
        } else {
            None
        }
    }

    /// The local instances that hear a frame.
    pub fn deliver_locally(&self, skip: Option<u64>) -> (r: Vec<u64>)
        ensures
            r@ == all_but(self@.members, skip),
    {
        copy_but(&self.members, skip)
    }

    /// Where a frame goes beyond this process.
    pub fn send_remote(&self) -> (r: Remote)
        ensures
            match r {
                Remote::Clients(ids) => self@.owns_lock && ids@ == self@.clients,
                Remote::Server => !self@.owns_lock && self@.linked,
                Remote::Nowhere => !self@.owns_lock && !self@.linked,
            },
    {
        if self.owns_lock {
            Remote::Clients(self.broadcast_except(None))
        } else if self.linked {
            Remote::Server
        } else {
            Remote::Nowhere
        }
    }

    /// The connections that a broadcast goes to.
    pub fn broadcast_except(&self, skip: Option<u64>) -> (r: Vec<u64>)
        ensures
            r@ == all_but(self@.clients, skip),
    {
        copy_but(&self.clients, skip)
    }

    /// Forget connections whose peers are dead.
    pub fn forget(&mut self, dead: &Vec<u64>)
        requires
            old(self).wf(),
        ensures
            final(self).wf(),
            final(self)@ == (GroupState {
                clients: without_all(old(self)@.clients, dead@),
                ..old(self)@
            }),
            final(self).upcoming() == old(self).upcoming(),
            final(self).upcoming_client() == old(self).upcoming_client(),
    {
        proof {
            lemma_filter_rising(self.clients@, |x: u64| !dead@.contains(x));
        }
        let ghost before = self.clients@;
        let left = copy_without(&self.clients, dead);
        proof {
            assert forall|i: int| 0 <= i < left@.len() implies (#[trigger] left@[i])
                < self.next_client by {
                assert(left@.contains(left@[i]));
                assert(before.contains(left@[i]));
            }
        }
        self.clients = left;
    }

    /// This process won the election.
    pub fn won_election(&mut self)
        requires
            old(self).wf(),
            !old(self)@.linked,
        ensures
            final(self).wf(),
            final(self)@ == (GroupState { owns_lock: true, ..old(self)@ }),
            final(self).upcoming() == old(self).upcoming(),
            final(self).upcoming_client() == old(self).upcoming_client(),
    {
        self.owns_lock = true;
    }

    /// This process no longer serves.
    pub fn stopped_serving(&mut self)
        requires
            old(self).wf(),
        ensures
            final(self).wf(),
            final(self)@ == (GroupState { owns_lock: false, ..old(self)@ }),
            final(self).upcoming() == old(self).upcoming(),
            final(self).upcoming_client() == old(self).upcoming_client(),
    {
        self.owns_lock = false;
    }

    /// Another process connects; `None` if the group is going away.
    pub fn accept(&mut self) -> (r: Option<u64>)
        requires
            old(self).wf(),
            old(self).upcoming_client() < u64::MAX,
        ensures
            final(self).wf(),
            final(self).upcoming() == old(self).upcoming(),
            match r {
                None => old(self)@.shutdown && final(self)@ == old(self)@
                    && final(self).upcoming_client() == old(self).upcoming_client(),
                Some(id) => !old(self)@.shutdown && id == old(self).upcoming_client()
                    && final(self).upcoming_client() == id + 1 && !old(self)@.clients.contains(id) && final(self)@ == (GroupState {
                    clients: old(self)@.clients.push(id),
                    ..old(self)@
                }),
            },
    {
        if self.shutdown {
            return None;
        }
        let id: u64 = self.next_client;
        self.next_client = id + 1;
        self.clients.push(id);
        Some(id)
    }

    /// A frame came from a client: every local instance hears it, and so does
    /// every other client. `None` if the group is going away.
    pub fn serve_conn(&self, from: u64) -> (r: Option<Relay>)
        ensures
            match r {
                None => self@.shutdown,
                Some(relay) => !self@.shutdown && relay.local@ == self@.members && relay.remote@
                    == without(self@.clients, from),
            },
    {
        if self.shutdown {
            return None;
        }
        Some(
            Relay {
                local: self.deliver_locally(None),
                remote: self.broadcast_except(Some(from)),
            },
        )
    }

    /// A client is gone; the result says whether its connection is still to
    /// be closed.
    pub fn conn_closed(&mut self, id: u64) -> (r: bool)
        requires
            old(self).wf(),
        ensures
            final(self).wf(),
            r == old(self)@.clients.contains(id),
            final(self)@ == (GroupState {
                clients: without(old(self)@.clients, id),
                ..old(self)@
            }),
            final(self).upcoming() == old(self).upcoming(),
            final(self).upcoming_client() == old(self).upcoming_client(),
    {
        let r: bool = contains(&self.clients, id);
        proof {
            lemma_all_but(self.clients@, Some(id));
            assert(all_but(self.clients@, Some(id)) == without(self.clients@, id));
        }
        let ghost before = self.clients@;
        let left = copy_but(&self.clients, Some(id));
        proof {
            assert forall|i: int| 0 <= i < left@.len() implies (#[trigger] left@[i])
                < self.next_client by {
                assert(left@.contains(left@[i]));
                assert(before.contains(left@[i]));
            }
        }
        self.clients = left;
        r
    }

    /// This process connected to the one that serves.
    pub fn link_up(&mut self)
        requires
            old(self).wf(),
            !old(self)@.owns_lock,
        ensures
            final(self).wf(),
            final(self)@ == (GroupState { linked: true, ..old(self)@ }),
            final(self).upcoming() == old(self).upcoming(),
            final(self).upcoming_client() == old(self).upcoming_client(),
    {
        self.linked = true;
    }

    /// A frame came from the process that serves: every local instance hears
    /// it. `None` if the group is going away.
    pub fn run_client(&self) -> (r: Option<Vec<u64>>)
        ensures
            match r {
                None => self@.shutdown,
                Some(local) => !self@.shutdown && local@ == self@.members,
            },
    {
        if self.shutdown {
            None
        } else {
            Some(self.deliver_locally(None))
        }
    }

    /// The connection to the process that serves is gone; the result says
    /// whether it is still to be closed.
    pub fn link_down(&mut self) -> (r: bool)
        requires
            old(self).wf(),
        ensures
            final(self).wf(),
            r == old(self)@.linked,
            final(self)@ == (GroupState { linked: false, ..old(self)@ }),
            final(self).upcoming() == old(self).upcoming(),
            final(self).upcoming_client() == old(self).upcoming_client(),
    {
        let r: bool = self.linked;
        self.linked = false;
        r
    }

    /// Whether the group is going away.
    pub fn is_shut_down(&self) -> (r: bool)
        ensures
            r == self@.shutdown,
    {
        self.shutdown
    }
}

/// The longest-lived of some members.
pub open spec fn owner(members: Seq<u64>) -> Option<u64> {
    if members.len() > 0 {
        Some(members[0])
    } else {
        None
    }
}

/// Whether an instance owns the shared role.
pub open spec fn serves(group: GroupState, id: u64) -> bool {
    group.owns_lock && owner(group.members) == Some(id)
}

/// One instance's seat on the bus.
#[derive(Debug)]
pub struct Bus {
    id: u64,
}

impl Bus {
    /// The seat's number; lower ones have lived longer.
    pub closed spec fn id(&self) -> u64 {
        self.id
    }

    /// The seat's number.
    pub fn number(&self) -> (r: u64)
        ensures
            r == self.id(),
    {
        self.id
    }

    /// What it takes to send a frame to every other instance, in this process
    /// and beyond.
    pub fn send(&self, group: &Group) -> (r: Delivery)
        ensures
            r.local@ == without(group@.members, self.id()),
            match r.remote {
                Remote::Clients(ids) => group@.owns_lock && ids@ == group@.clients,
                Remote::Server => !group@.owns_lock && group@.linked,
                Remote::Nowhere => !group@.owns_lock && !group@.linked,
            },
    {
        Delivery { local: group.deliver_locally(Some(self.id)), remote: group.send_remote() }
    }

    /// Whether this instance is the owner: the longest-lived one in the
    /// process that won the election.
    pub fn is_server(&self, group: &Group) -> (r: bool)
        requires
            group.wf(),
        ensures
            r == serves(group@, self.id()),
    {
        match group.owner_id() {
            Some(id) => group.owns_lock && id == self.id,
            None => false,
        }
    }
}

/// A sender never hears its own frame, and every other local instance hears
/// it exactly once.
pub proof fn law_local_delivery_reaches_exactly_the_others(members: Seq<u64>, sender: u64, other: u64)
    requires
        rising(members),
        members.contains(other),
    ensures
        !without(members, sender).contains(sender),
        other != sender ==> without(members, sender).contains(other),
        forall|i: int, j: int|
            0 <= i < without(members, sender).len() && 0 <= j < without(members, sender).len()
                && without(members, sender)[i] == without(members, sender)[j] ==> i == j,
{
    lemma_all_but(members, Some(sender));
    let r = without(members, sender);
    assert(r == all_but(members, Some(sender)));
    assert(!r.contains(sender));
    assert forall|i: int, j: int| 0 <= i < r.len() && 0 <= j < r.len() && r[i] == r[j] implies i
        == j by {
        if i < j {
            assert(r[i] < r[j]);
        }
        if j < i {
            assert(r[j] < r[i]);
        }
    }
}

/// At most one instance of a group owns the role, and as long as the group
/// has members and holds the lock, exactly one does.
pub proof fn law_exactly_one_owner(group: GroupState, a: u64, b: u64)
    ensures
        serves(group, a) && serves(group, b) ==> a == b,
        group.owns_lock && group.members.len() > 0 ==> serves(group, group.members[0]),
        !group.owns_lock ==> !serves(group, a),
{
}

/// When the owner leaves, the next instance inherits the role at once; when
/// anyone else leaves, the owner stays.
pub proof fn law_the_role_is_inherited_at_once(group: GroupState, leaver: u64)
    requires
        rising(group.members),
        group.owns_lock,
        group.members.len() > 1,
        group.members.contains(leaver),
    ensures
        serves(
            GroupState { members: without(group.members, leaver), ..group },
            if leaver == group.members[0] {
                group.members[1]
            } else {
                group.members[0]
            },
        ),
{
    let m = group.members;
    let r = without(m, leaver);
    lemma_all_but(m, Some(leaver));
    assert(r == all_but(m, Some(leaver)));
    let heir = if leaver == m[0] {
        m[1]
    } else {
        m[0]
    };
    assert(m[0] < m[1]);
    assert(m.contains(heir));
    assert(r.contains(heir));
    let k = choose|k: int| 0 <= k < r.len() && r[k] == heir;
    if k > 0 {
        assert(r[0] < r[k]);
        assert(r.contains(r[0]));
        assert(m.contains(r[0]));
        let i = choose|i: int| 0 <= i < m.len() && m[i] == r[0];
        assert(!r.contains(leaver));
        if i > 1 {
            assert(m[1] < m[i]);
        }
    }
}

/// A frame as processes pass it on: the server's group, and each client's
/// group with the server's number for its connection.
pub ghost struct Network {
    /// The process that serves.
    pub server: GroupState,
    /// The number of each client's connection at the server.
    pub conns: Seq<u64>,
    /// The client processes.
    pub clients: Seq<GroupState>,
}

impl Network {
    /// Every client is linked, the server knows each connection, and nobody
    /// is going away.
    pub open spec fn healthy(self) -> bool {
        &&& self.server.owns_lock
        &&& !self.server.shutdown
        &&& rising(self.server.members)
        &&& rising(self.server.clients)
        &&& rising(self.conns)
        &&& self.conns == self.server.clients
        &&& self.clients.len() == self.conns.len()
        &&& forall|k: int|
            0 <= k < self.clients.len() ==> rising((#[trigger] self.clients[k]).members)
                && self.clients[k].linked && !self.clients[k].owns_lock
                && !self.clients[k].shutdown
    }

    /// A process: the server's number is -1.
    pub open spec fn group(self, p: int) -> GroupState {
        if p < 0 {
            self.server
        } else {
            self.clients[p]
        }
    }

    /// The instances of a process.
    pub open spec fn members(self, p: int) -> Seq<u64> {
        self.group(p).members
    }

    /// The instances of process `p` that a frame reaches which instance
    /// `sender` of process `from` sent.
    pub open spec fn reached(self, from: int, sender: u64, p: int) -> Seq<u64> {
        if p == from {
            without(self.members(p), sender)
        } else if p < 0 {
            // The sender's process is a client and passes the frame to the
            // server, which delivers it locally.
            if self.clients[from].linked && !self.clients[from].owns_lock {
                self.server.members
            } else {
                Seq::empty()
            }
        } else if from < 0 {
            // The server broadcasts to every connection.
            if self.server.owns_lock && self.server.clients.contains(self.conns[p]) {
                self.clients[p].members
            } else {
                Seq::empty()
            }
        } else {
            // The server relays to every connection but the one it came from.
            if self.clients[from].linked && !self.clients[from].owns_lock && without(
                self.server.clients,
                self.conns[from],
            ).contains(self.conns[p]) {
                self.clients[p].members
            } else {
                Seq::empty()
            }
        }
    }
}

/// Exactly one instance on the machine owns the role: the serving process has
/// one as long as it has instances, and nobody else anywhere does.
pub proof fn law_one_owner_on_the_machine(net: Network, p: int, a: u64, q: int, b: u64)
    requires
        net.healthy(),
        -1 <= p < net.clients.len(),
        -1 <= q < net.clients.len(),
    ensures
        net.server.members.len() > 0 ==> serves(net.server, net.server.members[0]),
        serves(net.group(p), a) && serves(net.group(q), b) ==> p == q && a == b,
{
    if p >= 0 {
        assert(!net.clients[p].owns_lock);
    }
    if q >= 0 {
        assert(!net.clients[q].owns_lock);
    }
}

/// A frame reaches every other instance, in whatever process it lives, and
/// never its sender.
pub proof fn law_a_frame_reaches_every_other_instance(
    net: Network,
    from: int,
    sender: u64,
    p: int,
    id: u64,
)
    requires
        net.healthy(),
        -1 <= from < net.clients.len(),
        -1 <= p < net.clients.len(),
        net.members(from).contains(sender),
        net.members(p).contains(id),
    ensures
        net.reached(from, sender, p).contains(id) <==> !(p == from && id == sender),
{
    if p == from {
        assert(rising(net.members(p))) by {
            if p >= 0 {
                assert(rising(net.clients[p].members));
            }
        }
        law_local_delivery_reaches_exactly_the_others(net.members(p), sender, id);
    } else if from < 0 {
        assert(net.conns[p] == net.server.clients[p]);
        assert(net.server.clients.contains(net.conns[p]));
    } else if p >= 0 {
        lemma_all_but(net.server.clients, Some(net.conns[from]));
        assert(without(net.server.clients, net.conns[from]) == all_but(
            net.server.clients,
            Some(net.conns[from]),
        ));
        assert(net.conns[p] == net.server.clients[p]);
        assert(net.server.clients.contains(net.conns[p]));
        assert(net.conns[p] != net.conns[from]) by {
            if p < from {
                assert(net.conns[p] < net.conns[from]);
            } else {
                assert(net.conns[from] < net.conns[p]);
            }
        }
        assert(net.clients[from].linked);
    } else {
        assert(net.clients[from].linked);
    }
}

/// Live groups by key, so that instances that share a scope find each other.
#[derive(Debug)]
pub struct Registry {
    entries: Vec<(String, u64)>,
    next: u64,
}

impl View for Registry {
    type V = Map<Seq<char>, u64>;

    closed spec fn view(&self) -> Map<Seq<char>, u64> {
        table(self.entries@)
    }
}

/// What entries say, later ones overriding earlier ones.
pub closed spec fn table(entries: Seq<(String, u64)>) -> Map<Seq<char>, u64>
    decreases entries.len(),
{
    if entries.len() == 0 {
        Map::empty()
    } else {
        table(entries.drop_last()).insert(entries.last().0@, entries.last().1)
    }
}

proof fn lemma_table(entries: Seq<(String, u64)>, key: Seq<char>)
    ensures
        table(entries).contains_key(key) <==> exists|i: int|
            0 <= i < entries.len() && (#[trigger] entries[i]).0@ == key,
        table(entries).contains_key(key) ==> exists|i: int|
            0 <= i < entries.len() && (#[trigger] entries[i]).0@ == key && entries[i].1 == table(
                entries,
            )[key],
    decreases entries.len(),
{
    if entries.len() > 0 {
        let rest = entries.drop_last();
        lemma_table(rest, key);
        let n = entries.len() - 1;
        assert(entries[n] == entries.last());
        if table(rest).contains_key(key) {
            let i = choose|i: int|
                0 <= i < rest.len() && (#[trigger] rest[i]).0@ == key && rest[i].1 == table(
                    rest,
                )[key];
            assert(entries[i] == rest[i]);
        }
        if exists|i: int| 0 <= i < entries.len() && (#[trigger] entries[i]).0@ == key {
            let i = choose|i: int| 0 <= i < entries.len() && (#[trigger] entries[i]).0@ == key;
            if i < n {
                assert(rest[i].0@ == key);
            }
        }
    }
}

/// Whether no two entries share a key.
pub closed spec fn distinct_keys(entries: Seq<(String, u64)>) -> bool {
    forall|i: int, j: int|
        0 <= i < j < entries.len() ==> (#[trigger] entries[i]).0@ != (#[trigger] entries[j]).0@
}

proof fn lemma_table_at(entries: Seq<(String, u64)>, i: int)
    requires
        distinct_keys(entries),
        0 <= i < entries.len(),
    ensures
        table(entries).contains_key(entries[i].0@),
        table(entries)[entries[i].0@] == entries[i].1,
{
    let key = entries[i].0@;
    lemma_table(entries, key);
    assert(table(entries).contains_key(key));
    let j = choose|j: int|
        0 <= j < entries.len() && (#[trigger] entries[j]).0@ == key && entries[j].1 == table(
            entries,
        )[key];
    if i < j {
        assert(entries[i].0@ != entries[j].0@);
    }
    if j < i {
        assert(entries[j].0@ != entries[i].0@);
    }
}

impl Registry {
    /// No two entries share a key, and every group's number is below the
    /// next.
    pub closed spec fn wf(&self) -> bool {
        &&& distinct_keys(self.entries@)
        &&& forall|i: int| 0 <= i < self.entries@.len() ==> (#[trigger] self.entries@[i]).1
            < self.next
    }

    /// The number the next group gets.
    pub closed spec fn upcoming(&self) -> u64 {
        self.next
    }

    /// No groups.
    pub fn new() -> (r: Self)
        ensures
            r.wf(),
            r@ == Map::<Seq<char>, u64>::empty(),
            r.upcoming() == 0,
    {
        let r = Registry { entries: Vec::new(), next: 0 };
        proof {
            assert(r@ =~= Map::empty());
        }
        r
    }

    fn find(&self, key: &String) -> (r: Option<usize>)
        requires
            self.wf(),
        ensures
            match r {
                Some(i) => i < self.entries@.len() && self.entries@[i as int].0@ == key@
                    && self@.contains_key(key@) && self@[key@] == self.entries@[i as int].1,
                None => !self@.contains_key(key@) && forall|i: int|
                    0 <= i < self.entries@.len() ==> (#[trigger] self.entries@[i]).0@ != key@,
            },
    {
        let mut i: usize = 0;
        while i < self.entries.len()
            invariant
                self.wf(),
                i <= self.entries@.len(),
                forall|k: int| 0 <= k < i ==> (#[trigger] self.entries@[k]).0@ != key@,
            decreases self.entries.len() - i,
        {
            if self.entries[i].0 == *key {
                proof {
                    lemma_table_at(self.entries@, i as int);
                }
                return Some(i);
            }
            i += 1;
        }
        proof {
            lemma_table(self.entries@, key@);
        }
        None
    }

    /// The group for a key: the live one, or a new one. The flag says whether
    /// it is new.
    pub fn join(&mut self, key: String) -> (r: (u64, bool))
        requires
            old(self).wf(),
            old(self).upcoming() < u64::MAX,
        ensures
            final(self).wf(),
            if old(self)@.contains_key(key@) {
                r == (old(self)@[key@], false) && final(self)@ == old(self)@ && final(self).upcoming() == old(self).upcoming()
            } else {
                r == (old(self).upcoming(), true) && final(self)@ == old(self)@.insert(key@, r.0)
                    && final(self).upcoming() == old(self).upcoming() + 1
            },
    {
        match self.find(&key) {
            Some(i) => (self.entries[i].1, false),
            None => {
                let id: u64 = self.next;
                self.next = id + 1;
                let ghost before = self.entries@;
                self.entries.push((key, id));
                proof {
                    assert(self.entries@.drop_last() =~= before);
                }
                (id, true)
            },
        }
    }

    /// Forget a group that shut down. A later group under the same key stays.
    pub fn remove(&mut self, key: &String, group: u64)
        requires
            old(self).wf(),
        ensures
            final(self).wf(),
            final(self).upcoming() == old(self).upcoming(),
            final(self)@ == (if old(self)@.contains_key(key@) && old(self)@[key@] == group {
                old(self)@.remove(key@)
            } else {
                old(self)@
            }),
    {
        if let Some(i) = self.find(key) {
            if self.entries[i].1 == group {
                let ghost before = self.entries@;
                self.entries.remove(i);
                proof {
                    let after = self.entries@;
                    assert(after =~= before.remove(i as int));
                    assert forall|a: int, b: int| 0 <= a < b < after.len() implies (
                    #[trigger] after[a]).0@ != (#[trigger] after[b]).0@ by {
                        let a2 = if a < i {
                            a
                        } else {
                            a + 1
                        };
                        let b2 = if b < i {
                            b
                        } else {
                            b + 1
                        };
                        assert(before[a2].0@ != before[b2].0@);
                    }
                    assert(distinct_keys(after));
                    assert forall|a: int| 0 <= a < after.len() implies (#[trigger] after[a]).1
                        < self.next by {
                        if a < i {
                            assert(before[a].1 < self.next);
                        } else {
                            assert(before[a + 1].1 < self.next);
                        }
                    }
                    lemma_table_without(before, i as int, after);
                }
            }
        }
    }
}

proof fn lemma_table_without(before: Seq<(String, u64)>, i: int, after: Seq<(String, u64)>)
    requires
        distinct_keys(before),
        distinct_keys(after),
        0 <= i < before.len(),
        after == before.remove(i),
    ensures
        table(after) == table(before).remove(before[i].0@),
{
    let gone = before[i].0@;
    assert forall|k: Seq<char>| #[trigger] table(after).contains_key(k) <==> table(
        before,
    ).contains_key(k) && k != gone by {
        lemma_table(after, k);
        lemma_table(before, k);
        if table(after).contains_key(k) {
            let j = choose|j: int| 0 <= j < after.len() && (#[trigger] after[j]).0@ == k;
            let j2 = if j < i {
                j
            } else {
                j + 1
            };
            assert(before[j2].0@ == k);
            if j2 < i {
                assert(before[j2].0@ != before[i].0@);
            } else {
                assert(before[i].0@ != before[j2].0@);
            }
        }
        if table(before).contains_key(k) && k != gone {
            let j = choose|j: int| 0 <= j < before.len() && (#[trigger] before[j]).0@ == k;
            let j2 = if j < i {
                j
            } else {
                j - 1
            };
            assert(after[j2].0@ == k);
        }
    }
    assert forall|k: Seq<char>| #[trigger] table(after).contains_key(k) implies table(after)[k]
        == table(before)[k] by {
        lemma_table(after, k);
        let j = choose|j: int| 0 <= j < after.len() && (#[trigger] after[j]).0@ == k;
        lemma_table_at(after, j);
        let j2 = if j < i {
            j
        } else {
            j + 1
        };
        assert(before[j2] == after[j]);
        lemma_table_at(before, j2);
    }
    assert(table(after) =~= table(before).remove(gone));
}

/// What the thread that keeps a process's link up does next.
#[derive(Clone, Copy, PartialEq, Eq, Structural, Debug)]
pub enum LinkAction {
    /// Try to win the election.
    TryToServe,
    /// Serve until the listener is finished.
    Serve,
    /// Give the name back after serving.
    Release,
    /// Connect to the process that serves.
    Connect,
    /// Read frames until the connection is gone.
    ReadFrames,
    /// Wait a little.
    Pause,
    /// Nothing more: the group is gone.
    Stop,
}

/// What came of the last action.
#[derive(Clone, Copy, PartialEq, Eq, Structural, Debug)]
pub enum LinkEvent {
    /// Nothing has been tried yet, or the last action is over.
    Ready,
    /// The election was won.
    Won,
    /// The election was lost, or cannot be held here.
    Lost,
    /// Serving is over.
    ServedOut,
    /// The connection stands.
    Connected,
    /// There is nobody to connect to.
    Unreachable,
}

/// How long to wait before trying again, in milliseconds.
pub const RETRY_MILLIS: u64 = 20;

/// What to do next: win the lock and serve, or connect as a client, again
/// and again until the group is gone. Whether it is gone is asked only
/// between attempts.
pub fn lifecycle(event: LinkEvent, shutdown: bool) -> (r: LinkAction)
    ensures
        r == (match event {
            LinkEvent::Ready => if shutdown {
                LinkAction::Stop
            } else {
                LinkAction::TryToServe
            },
            LinkEvent::Won => LinkAction::Serve,
            LinkEvent::ServedOut => LinkAction::Release,
            LinkEvent::Lost => LinkAction::Connect,
            LinkEvent::Connected => LinkAction::ReadFrames,
            LinkEvent::Unreachable => LinkAction::Pause,
        }),
{
    match event {
        LinkEvent::Ready => if shutdown {
            LinkAction::Stop
        } else {
            LinkAction::TryToServe
        },
        LinkEvent::Won => LinkAction::Serve,
        LinkEvent::ServedOut => LinkAction::Release,
        LinkEvent::Lost => LinkAction::Connect,
        LinkEvent::Connected => LinkAction::ReadFrames,
        LinkEvent::Unreachable => LinkAction::Pause,
    }
}

/// A frame is four bytes of length, lowest first, and then the data as it is.
pub proof fn law_frames_start_with_their_length(data: Seq<u8>)
    requires
        data.len() <= u32::MAX,
    ensures
        framed(data).take(4) == bytes::spec_u32_to_le_bytes(data.len() as u32),
        framed(data).skip(4) == data,
{
    bytes::lemma_auto_spec_u32_to_from_le_bytes();
    assert(framed(data).take(4) =~= bytes::spec_u32_to_le_bytes(data.len() as u32));
    assert(framed(data).skip(4) =~= data);
}

/// A stream gives a frame as soon as it holds the four bytes of the length and
/// as many bytes more: exactly those. A length past 1048576 is an error, and
/// anything shorter waits for more.
pub proof fn law_streams_give_whole_frames(stream: Seq<u8>)
    ensures
        stream.len() < 4 ==> first_frame(stream) == Ok::<Option<Seq<u8>>, FrameError>(None),
        ({
            let length = bytes::spec_u32_from_le_bytes(stream.take(4));
            &&& stream.len() >= 4 && length > 1048576 ==> first_frame(stream) == Err::<
                Option<Seq<u8>>,
                FrameError,
            >(FrameError::TooLarge)
            &&& stream.len() >= 4 && length <= 1048576 && stream.len() - 4 < length
                ==> first_frame(stream) == Ok::<Option<Seq<u8>>, FrameError>(None)
            &&& stream.len() >= 4 && length <= 1048576 && stream.len() - 4 >= length
                ==> first_frame(stream) == Ok::<Option<Seq<u8>>, FrameError>(
                Some(stream.skip(4).take(length as int)),
            )
        }),
{
    let length = bytes::spec_u32_from_le_bytes(stream.take(4));
    if stream.len() >= 4 && stream.len() - 4 >= length {
        assert(stream.subrange(4, 4 + length) =~= stream.skip(4).take(length as int));
    }
}

/// Letters and digits of ASCII, dots and hyphens stay in a scope as they are,
/// and every other character becomes an underscore.
pub proof fn law_scopes_keep_plain_characters(scope: Seq<char>, i: int)
    requires
        0 <= i < scope.len(),
    ensures
        sane(scope).len() == scope.len(),
        ({
            let code = scope[i] as u32;
            let plain = 97 <= code <= 122 || 65 <= code <= 90 || 48 <= code <= 57 || code == 46
                || code == 45;
            &&& plain ==> sane(scope)[i] == scope[i]
            &&& !plain ==> sane(scope)[i] == '_'
        }),
{
    lemma_plain_codes(scope[i]);
}

proof fn lemma_plain_codes(c: char)
    ensures
        is_plain(c) <==> (97 <= c as u32 <= 122 || 65 <= c as u32 <= 90 || 48 <= c as u32 <= 57
            || c as u32 == 46 || c as u32 == 45),
{
}

/// Hexadecimal digits come highest first, each four bits, from 0 to 9 and then
/// from a to f.
pub proof fn law_hexadecimal_is_written_by_digit(v: int, n: nat)
    requires
        0 <= v,
    ensures
        hex(v, n).len() == n,
        n > 0 ==> hex(v, n).drop_last() == hex(v / 16, (n - 1) as nat),
        n > 0 && v % 16 < 10 ==> hex(v, n).last() as u32 == 48 + v % 16,
        n > 0 && v % 16 >= 10 ==> hex(v, n).last() as u32 == 97 + (v % 16 - 10),
    decreases n,
{
    if n > 0 {
        law_hexadecimal_is_written_by_digit(v / 16, (n - 1) as nat);
        assert(hex(v, n).drop_last() =~= hex(v / 16, (n - 1) as nat));
    }
}

/// A pipe's name ends in its scope, and the sixteen digits before it are the
/// hash of the whole directory: two scopes of one directory have two names.
pub proof fn law_pipe_names_tell_scopes_apart(dir: Seq<u8>, a: Seq<char>, b: Seq<char>)
    ensures
        pipe_name(dir, a) == "\\\\.\\pipe\\skuiz-"@ + hex(
            hosttext::fnv64(0xcbf2_9ce4_8422_2325, dir) as int,
            16,
        ) + "-"@ + a,
        pipe_name(dir, a) == pipe_name(dir, b) ==> a == b,
{
    let front = "\\\\.\\pipe\\skuiz-"@ + hex(
        hosttext::fnv64(0xcbf2_9ce4_8422_2325, dir) as int,
        16,
    ) + "-"@;
    assert(pipe_name(dir, a) =~= front + a);
    assert(pipe_name(dir, b) =~= front + b);
    assert((front + a).skip(front.len() as int) =~= a);
    assert((front + b).skip(front.len() as int) =~= b);
}

/// Leaving somebody out takes exactly that one from the list, wherever it
/// stands, and keeps everybody else in their order.
pub proof fn law_leaving_out_keeps_the_others(
    front: Seq<u64>,
    back: Seq<u64>,
    x: u64,
    id: u64,
    gone: Seq<u64>,
)
    ensures
        without(front + back, id) == without(front, id) + without(back, id),
        x == id ==> without(seq![x], id) == Seq::<u64>::empty(),
        x != id ==> without(seq![x], id) == seq![x],
        without_all(front + back, gone) == without_all(front, gone) + without_all(back, gone),
        gone.contains(x) ==> without_all(seq![x], gone) == Seq::<u64>::empty(),
        !gone.contains(x) ==> without_all(seq![x], gone) == seq![x],
        all_but(front, None) == front,
        all_but(front, Some(id)) == without(front, id),
{
    reveal(Seq::filter);
    let here = |y: u64| !gone.contains(y);
    let empty = Seq::<u64>::empty();
    assert(seq![x].drop_last() =~= empty);
    assert(seq![x].last() == x);
    assert(empty.filter(other_than(id)) =~= empty);
    assert(empty.filter(here) =~= empty);
    assert(empty.push(x) =~= seq![x]);
    Seq::filter_distributes_over_add(front, back, other_than(id));
    Seq::filter_distributes_over_add(front, back, here);
}

/// The owner is the member that joined first, if there is any, and it alone
/// serves, exactly while the group holds the lock.
pub proof fn law_the_first_member_owns(group: GroupState, id: u64)
    ensures
        group.members.len() == 0 ==> owner(group.members) is None,
        group.members.len() > 0 ==> owner(group.members) == Some(group.members[0]),
        serves(group, id) <==> group.owns_lock && group.members.len() > 0 && group.members[0] == id,
{
}

} // verus!
