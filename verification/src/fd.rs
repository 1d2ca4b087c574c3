//! File-descriptor state: typed FD metadata, the per-process FD table, the
//! classification of `/proc` link targets, and the context-sensitive
//! capability mapping for `ioctl`.
use vstd::prelude::*;

use crate::capmap::{spec_set_contains, CapSet};
use crate::caps::Capability;
use crate::text::{parse_decimal_u64, parse_octal_i32, spec_decimal_value, str_eq};

verus! {

/// The `O_CLOEXEC` bit of a descriptor's flag word.
pub const O_CLOEXEC: i32 = 0o2000000;

/// A socket's address family, by its raw `AF_*` code.
#[derive(Debug, Clone, Copy, PartialEq, Eq, Structural)]
pub struct SocketDomain {
    pub raw: i32,
}

/// The raw code of the local (Unix) address family.
pub const AF_UNIX: i32 = 1;

impl SocketDomain {
    /// Whether this is the local (Unix) family.
    pub fn is_unix(&self) -> (r: bool)
        ensures
            r == (self.raw == AF_UNIX),
    {
        self.raw == AF_UNIX
    }
}

/// A socket's communication style.
#[derive(Debug, Clone, Copy, PartialEq, Eq, Structural)]
pub enum SockKind {
    Stream,
    Datagram,
    SeqPacket,
    Raw,
    Rdm,
}

/// What a file descriptor refers to.
#[derive(Debug)]
pub enum Type {
    Block { path: String },
    Char { path: String },
    Directory { path: String },
    Fifo,
    File { path: String },
    Socket { domain: SocketDomain, ty: SockKind },
    SocketInode { inode: u64 },
    Unknown,
}

impl Clone for Type {
    fn clone(&self) -> (r: Self)
        ensures
            r == *self,
    {
        match self {
            Type::Block { path } => Type::Block { path: path.clone() },
            Type::Char { path } => Type::Char { path: path.clone() },
            Type::Directory { path } => Type::Directory { path: path.clone() },
            Type::Fifo => Type::Fifo,
            Type::File { path } => Type::File { path: path.clone() },
            Type::Socket { domain, ty } => Type::Socket { domain: *domain, ty: *ty },
            Type::SocketInode { inode } => Type::SocketInode { inode: *inode },
            Type::Unknown => Type::Unknown,
        }
    }
}

/// A descriptor's flag word and type.
#[derive(Debug)]
pub struct Meta {
    pub flags: i32,
    pub ty: Type,
}

impl Clone for Meta {
    fn clone(&self) -> (r: Self)
        ensures
            r == *self,
    {
        Meta { flags: self.flags, ty: self.ty.clone() }
    }
}

/// Whether a flag word has `O_CLOEXEC` set.
pub open spec fn spec_is_cloexec(flags: i32) -> bool {
    flags & O_CLOEXEC != 0
}

impl Meta {
    /// Bundle a flag word with a type.
    pub fn new(flags: i32, ty: Type) -> (r: Meta)
        ensures
            r.flags == flags,
            r.ty == ty,
    {
        Meta { flags, ty }
    }

    /// Whether the descriptor closes across `exec`.
    pub fn is_cloexec(&self) -> (r: bool)
        ensures
            r == spec_is_cloexec(self.flags),
    {
        self.flags & O_CLOEXEC != 0
    }

    /// The descriptor's type.
    pub fn ty(&self) -> (r: &Type)
        ensures
            *r == self.ty,
    {
        &self.ty
    }
}

/// The capability set an `ioctl` on a descriptor of type `ty` exercises:
/// a terminal-like character device is safe; directories, regular files and
/// local sockets touch files; any other socket touches the network; block
/// devices, pipes and unknown types cannot be classified.
pub open spec fn spec_ioctl_caps(ty: Type) -> Option<Capability> {
    match ty {
        Type::Char { .. } => Some(Capability::Safe),
        Type::Directory { .. } => Some(Capability::Files),
        Type::File { .. } => Some(Capability::Files),
        Type::Socket { domain, .. } => if domain.raw == AF_UNIX {
            Some(Capability::Files)
        } else {
            Some(Capability::Network)
        },
        Type::SocketInode { .. } => Some(Capability::Network),
        _ => None,
    }
}

/// A failure while interpreting descriptor state.
#[derive(Debug, Clone)]
pub enum Error {
    /// An `ioctl` on a descriptor whose type maps to no capability.
    Ioctl { cmd: u64, ty: Type },
    /// A `flags:` value in fdinfo text that is not an octal numeral.
    FdinfoFlag { flags: String },
}

/// Map an `ioctl` to capabilities by the descriptor's type, failing on the
/// types that carry no classification.
pub fn ioctl_caps(cmd: u64, ty: &Type) -> (r: Result<CapSet, Error>)
    ensures
        match r {
            Ok(caps) => {
                &&& spec_ioctl_caps(*ty) is Some
                &&& caps.wf()
                &&& caps@.len() == 1
                &&& caps@[0] == spec_ioctl_caps(*ty).unwrap()
            },
            Err(_) => spec_ioctl_caps(*ty) is None,
        },
{
    let c = match ty {
        Type::Char { .. } => Capability::Safe,
        Type::Directory { .. } => Capability::Files,
        Type::File { .. } => Capability::Files,
        Type::Socket { domain, .. } => if domain.is_unix() {
            Capability::Files
        } else {
            Capability::Network
        },
        Type::SocketInode { .. } => Capability::Network,
        _ => {
            return Err(Error::Ioctl { cmd, ty: ty.clone() });
        },
    };
    let mut caps = CapSet::new();
    caps.insert(c);
    proof {
        let w = choose|w: int| 0 <= w < caps@.len() && caps@[w] == c;
        assert forall|k: int| 0 <= k < caps@.len() implies caps@[k] == c by {
            assert(spec_set_contains(caps@, caps@[k]));
        }
        if caps@.len() >= 2 {
            assert(crate::caps::spec_cap_code(caps@[0]) < crate::caps::spec_cap_code(caps@[1]));
        }
        assert(caps@.len() == 1);
        assert(caps@[0] == c);
    }
    Ok(caps)
}

/// The per-process descriptor table, sorted by descriptor number, one
/// entry per descriptor.
pub struct Table {
    entries: Vec<(u64, Meta)>,
}

/// First-match lookup by descriptor number.
pub open spec fn spec_fd_lookup(entries: Seq<(u64, Meta)>, fd: u64) -> Option<Meta>
    decreases entries.len(),
{
    if entries.len() == 0 {
        None
    } else if entries[0].0 == fd {
        Some(entries[0].1)
    } else {
        spec_fd_lookup(entries.drop_first(), fd)
    }
}

impl View for Table {
    type V = Seq<(u64, Meta)>;

    closed spec fn view(&self) -> Seq<(u64, Meta)> {
        self.entries@
    }
}

impl Table {
    /// Entries are sorted strictly by descriptor number.
    pub open spec fn wf(&self) -> bool {
        forall|i: int, j: int| 0 <= i < j < self@.len() ==> self@[i].0 < self@[j].0
    }

    /// An empty table.
    pub fn new() -> (r: Table)
        ensures
            r@ == Seq::<(u64, Meta)>::empty(),
            r.wf(),
    {
        Table { entries: Vec::new() }
    }

    /// The number of entries.
    pub fn len(&self) -> (r: usize)
        ensures
            r == self@.len(),
    {
        self.entries.len()
    }

    /// The entry at position `i`, in descriptor order.
    pub fn entry_at(&self, i: usize) -> (r: &(u64, Meta))
        requires
            i < self@.len(),
        ensures
            *r == self@[i as int],
    {
        &self.entries[i]
    }

    /// The metadata recorded for `fd`, if any.
    pub fn get(&self, fd: u64) -> (r: Option<&Meta>)
        ensures
            match r {
                Some(m) => spec_fd_lookup(self@, fd) == Some(*m),
                None => spec_fd_lookup(self@, fd) is None,
            },
    {
        let mut i: usize = 0;
        while i < self.entries.len()
            invariant
                i <= self@.len(),
                forall|j: int| 0 <= j < i ==> self@[j].0 != fd,
            decreases self@.len() - i,
        {
            if self.entries[i].0 == fd {
                proof {
                    lemma_fd_found(self@, fd, i as int);
                }
                return Some(&self.entries[i].1);
            }
            i += 1;
        }
        proof {
            lemma_fd_absent(self@, fd);
        }
        None
    }

    /// Record `meta` for `fd`, replacing any earlier record.
    pub fn insert(&mut self, fd: u64, meta: Meta)
        requires
            old(self).wf(),
        ensures
            final(self).wf(),
            spec_fd_lookup(final(self)@, fd) == Some(meta),
            forall|d: u64| d != fd ==> spec_fd_lookup(final(self)@, d) == spec_fd_lookup(
                old(self)@,
                d,
            ),
    {
        let mut i: usize = 0;
        while i < self.entries.len() && self.entries[i].0 < fd
            invariant
                i <= self@.len(),
                *self == *old(self),
                old(self).wf(),
                forall|j: int| 0 <= j < i ==> self@[j].0 < fd,
            decreases self@.len() - i,
        {
            i += 1;
        }
        if i < self.entries.len() && self.entries[i].0 == fd {
            self.entries[i] = (fd, meta);
            proof {
                let o = old(self)@;
                let n = self@;
                assert(n =~= o.update(i as int, (fd, meta)));
                lemma_fd_found(n, fd, i as int);
                assert forall|d: u64| d != fd implies spec_fd_lookup(n, d) == spec_fd_lookup(
                    o,
                    d,
                ) by {
                    lemma_fd_update_other(o, i as int, meta, d);
                }
                assert forall|x: int, y: int| 0 <= x < y < n.len() implies n[x].0 < n[y].0 by {
                    assert(n[x].0 == o[x].0);
                    assert(n[y].0 == o[y].0);
                }
            }
            return ;
        }
        proof {
            assert forall|j: int| 0 <= j < self@.len() implies self@[j].0 != fd by {
                if j > i {
                    assert(self@[i as int].0 < self@[j].0);
                }
            }
            lemma_fd_absent(old(self)@, fd);
        }
        self.entries.insert(i, (fd, meta));
        proof {
            let o = old(self)@;
            let n = self@;
            assert(n =~= o.insert(i as int, (fd, meta)));
            assert forall|j: int| 0 <= j < i implies n[j].0 != fd by {
                assert(n[j] == o[j]);
            }
            assert(n[i as int].0 == fd);
            lemma_fd_found(n, fd, i as int);
            assert forall|d: u64| d != fd implies spec_fd_lookup(n, d) == spec_fd_lookup(
                o,
                d,
            ) by {
                lemma_fd_insert_other(o, i as int, fd, meta, d);
            }
            assert forall|x: int, y: int| 0 <= x < y < n.len() implies n[x].0 < n[y].0 by {
                if y < i {
                } else if x >= i + 1 {
                    assert(n[x] == o[x - 1]);
                    assert(n[y] == o[y - 1]);
                } else if y == i {
                    assert(n[x] == o[x]);
                } else if x == i {
                    assert(n[y] == o[y - 1]);
                    if y - 1 > i {
                        assert(o[i as int].0 < o[y - 1].0);
                    }
                } else {
                    assert(n[x] == o[x]);
                    assert(n[y] == o[y - 1]);
                }
            }
        }
    }

    /// Drop the record for `fd`, if any.
    pub fn remove(&mut self, fd: u64)
        requires
            old(self).wf(),
        ensures
            final(self).wf(),
            spec_fd_lookup(final(self)@, fd) is None,
            forall|d: u64| d != fd ==> spec_fd_lookup(final(self)@, d) == spec_fd_lookup(
                old(self)@,
                d,
            ),
    {
        let ghost o = old(self)@;
        let mut kept: Vec<(u64, Meta)> = Vec::new();
        let mut i: usize = 0;
        proof {
            assert(o.take(0) =~= Seq::<(u64, Meta)>::empty());
            assert(kept@ =~= o.take(0).filter(|p: (u64, Meta)| p.0 != fd)) by {
                Seq::<(u64, Meta)>::empty().lemma_filter_len(|p: (u64, Meta)| p.0 != fd);
            }
        }
        while i < self.entries.len()
            invariant
                i <= self@.len(),
                *self == *old(self),
                old(self).wf(),
                o == old(self)@,
                kept@ == o.take(i as int).filter(|p: (u64, Meta)| p.0 != fd),
            decreases self@.len() - i,
        {
            let e = &self.entries[i];
            if e.0 != fd {
                kept.push((e.0, e.1.clone()));
                proof {
                    assert(kept@.last() == o[i as int]);
                    crate::report::lemma_filter_snoc(
                        o.take(i as int),
                        o[i as int],
                        |p: (u64, Meta)| p.0 != fd,
                    );
                    assert(o.take(i as int).push(o[i as int]) =~= o.take(i as int + 1));
                }
            } else {
                proof {
                    crate::report::lemma_filter_snoc(
                        o.take(i as int),
                        o[i as int],
                        |p: (u64, Meta)| p.0 != fd,
                    );
                    assert(o.take(i as int).push(o[i as int]) =~= o.take(i as int + 1));
                }
            }
            i += 1;
        }
        proof {
            assert(o.take(o.len() as int) =~= o);
        }
        self.entries = kept;
        proof {
            let n = self@;
            let p = |p: (u64, Meta)| p.0 != fd;
            assert forall|x: int| 0 <= x < n.len() implies n[x].0 != fd by {
                o.lemma_filter_pred(p, x);
            }
            lemma_fd_absent(n, fd);
            lemma_fd_filter_other(o, fd);
            assert forall|x: int, y: int| 0 <= x < y < n.len() implies n[x].0 < n[y].0 by {
                lemma_filter_sorted(o, fd, x, y);
            }
        }
    }

    /// Drop every record in the inclusive descriptor range `lo..=hi`.
    pub fn remove_range(&mut self, lo: u64, hi: u64)
        requires
            old(self).wf(),
        ensures
            final(self).wf(),
            final(self)@ == old(self)@.filter(|p: (u64, Meta)| !(lo <= p.0 <= hi)),
    {
        let ghost o = old(self)@;
        let ghost p = |p: (u64, Meta)| !(lo <= p.0 <= hi);
        let mut kept: Vec<(u64, Meta)> = Vec::new();
        let mut i: usize = 0;
        proof {
            assert(o.take(0) =~= Seq::<(u64, Meta)>::empty());
            assert(kept@ =~= o.take(0).filter(p)) by {
                o.take(0).lemma_filter_len(p);
            }
        }
        while i < self.entries.len()
            invariant
                i <= self@.len(),
                *self == *old(self),
                old(self).wf(),
                o == old(self)@,
                p == (|p: (u64, Meta)| !(lo <= p.0 <= hi)),
                kept@ == o.take(i as int).filter(p),
            decreases self@.len() - i,
        {
            let e = &self.entries[i];
            if !(lo <= e.0 && e.0 <= hi) {
                kept.push((e.0, e.1.clone()));
                proof {
                    assert(kept@.last() == o[i as int]);
                    crate::report::lemma_filter_snoc(o.take(i as int), o[i as int], p);
                    assert(o.take(i as int).push(o[i as int]) =~= o.take(i as int + 1));
                }
            } else {
                proof {
                    crate::report::lemma_filter_snoc(o.take(i as int), o[i as int], p);
                    assert(o.take(i as int).push(o[i as int]) =~= o.take(i as int + 1));
                }
            }
            i += 1;
        }
        proof {
            assert(o.take(o.len() as int) =~= o);
        }
        self.entries = kept;
        proof {
            assert forall|x: int, y: int| 0 <= x < y < self@.len() implies self@[x].0
                < self@[y].0 by {
                lemma_filter_pred_sorted(o, p, x, y);
            }
        }
    }

    /// The entries surviving a `clone`: those without `O_CLOEXEC`.
    pub fn non_cloexec(&self) -> (r: Table)
        ensures
            r@ == self@.filter(|p: (u64, Meta)| !spec_is_cloexec(p.1.flags)),
            self.wf() ==> r.wf(),
    {
        let ghost o = self@;
        let ghost p = |p: (u64, Meta)| !spec_is_cloexec(p.1.flags);
        let mut kept: Vec<(u64, Meta)> = Vec::new();
        let mut i: usize = 0;
        proof {
            assert(o.take(0) =~= Seq::<(u64, Meta)>::empty());
            assert(kept@ =~= o.take(0).filter(p)) by {
                o.take(0).lemma_filter_len(p);
            }
        }
        while i < self.entries.len()
            invariant
                i <= self@.len(),
                o == self@,
                p == (|p: (u64, Meta)| !spec_is_cloexec(p.1.flags)),
                kept@ == o.take(i as int).filter(p),
            decreases self@.len() - i,
        {
            let e = &self.entries[i];
            if e.1.flags & O_CLOEXEC == 0 {
                kept.push((e.0, e.1.clone()));
                proof {
                    assert(kept@.last() == o[i as int]);
                    crate::report::lemma_filter_snoc(o.take(i as int), o[i as int], p);
                    assert(o.take(i as int).push(o[i as int]) =~= o.take(i as int + 1));
                }
            } else {
                proof {
                    crate::report::lemma_filter_snoc(o.take(i as int), o[i as int], p);
                    assert(o.take(i as int).push(o[i as int]) =~= o.take(i as int + 1));
                }
            }
            i += 1;
        }
        proof {
            assert(o.take(o.len() as int) =~= o);
        }
        let r = Table { entries: kept };
        proof {
            if self.wf() {
                assert forall|x: int, y: int| 0 <= x < y < r@.len() implies r@[x].0 < r@[y].0 by {
                    lemma_filter_pred_sorted(o, p, x, y);
                }
            }
        }
        r
    }
}

/// A first match at `k` is what FD lookup finds.
proof fn lemma_fd_found(entries: Seq<(u64, Meta)>, fd: u64, k: int)
    requires
        0 <= k < entries.len(),
        entries[k].0 == fd,
        forall|j: int| 0 <= j < k ==> entries[j].0 != fd,
    ensures
        spec_fd_lookup(entries, fd) == Some(entries[k].1),
    decreases k,
{
    if k > 0 {
        assert forall|j: int| 0 <= j < k - 1 implies entries.drop_first()[j].0 != fd by {
            assert(entries.drop_first()[j] == entries[j + 1]);
        }
        assert(entries.drop_first()[k - 1] == entries[k]);
        lemma_fd_found(entries.drop_first(), fd, k - 1);
    }
}

/// A descriptor out of every entry is absent.
proof fn lemma_fd_absent(entries: Seq<(u64, Meta)>, fd: u64)
    requires
        forall|j: int| 0 <= j < entries.len() ==> entries[j].0 != fd,
    ensures
        spec_fd_lookup(entries, fd) is None,
    decreases entries.len(),
{
    if entries.len() > 0 {
        assert forall|j: int| 0 <= j < entries.drop_first().len() implies entries.drop_first()[j].0
            != fd by {
            assert(entries.drop_first()[j] == entries[j + 1]);
        }
        lemma_fd_absent(entries.drop_first(), fd);
    }
}

/// Updating entry `k`'s metadata leaves other descriptors' lookups alone.
proof fn lemma_fd_update_other(entries: Seq<(u64, Meta)>, k: int, meta: Meta, d: u64)
    requires
        0 <= k < entries.len(),
        d != entries[k].0,
    ensures
        spec_fd_lookup(entries.update(k, (entries[k].0, meta)), d) == spec_fd_lookup(entries, d),
    decreases k,
{
    let upd = entries.update(k, (entries[k].0, meta));
    if k == 0 {
        assert(upd.drop_first() =~= entries.drop_first());
    } else {
        assert(upd[0] == entries[0]);
        assert(upd.drop_first() =~= entries.drop_first().update(k - 1, (entries[k].0, meta)));
        assert(entries.drop_first()[k - 1] == entries[k]);
        lemma_fd_update_other(entries.drop_first(), k - 1, meta, d);
    }
}

/// Inserting a fresh descriptor leaves other descriptors' lookups alone.
proof fn lemma_fd_insert_other(entries: Seq<(u64, Meta)>, k: int, fd: u64, meta: Meta, d: u64)
    requires
        0 <= k <= entries.len(),
        d != fd,
    ensures
        spec_fd_lookup(entries.insert(k, (fd, meta)), d) == spec_fd_lookup(entries, d),
    decreases k,
{
    let ins = entries.insert(k, (fd, meta));
    if k == 0 {
        assert(ins[0] == (fd, meta));
        assert(ins.drop_first() =~= entries);
    } else {
        assert(ins[0] == entries[0]);
        assert(ins.drop_first() =~= entries.drop_first().insert(k - 1, (fd, meta)));
        lemma_fd_insert_other(entries.drop_first(), k - 1, fd, meta, d);
    }
}

/// Filtering one descriptor out leaves other descriptors' lookups alone.
proof fn lemma_fd_filter_other(entries: Seq<(u64, Meta)>, fd: u64)
    ensures
        forall|d: u64|
            d != fd ==> spec_fd_lookup(entries.filter(|p: (u64, Meta)| p.0 != fd), d)
                == spec_fd_lookup(entries, d),
    decreases entries.len(),
{
    reveal(Seq::filter);
    let p = |p: (u64, Meta)| p.0 != fd;
    if entries.len() > 0 {
        lemma_fd_filter_other(entries.drop_last(), fd);
        assert forall|d: u64| d != fd implies spec_fd_lookup(entries.filter(p), d)
            == spec_fd_lookup(entries, d) by {
            lemma_fd_lookup_snoc(entries.drop_last(), entries.last(), d);
            if p(entries.last()) {
                lemma_fd_lookup_snoc(entries.drop_last().filter(p), entries.last(), d);
                assert(entries.drop_last().filter(p).push(entries.last()) =~= entries.filter(p));
            }
            assert(entries.drop_last().push(entries.last()) =~= entries);
        }
    }
}

/// Lookup in a sequence extended at the back: the front wins, the new
/// entry answers only for its own descriptor when the front lacks it.
proof fn lemma_fd_lookup_snoc(entries: Seq<(u64, Meta)>, e: (u64, Meta), d: u64)
    ensures
        spec_fd_lookup(entries.push(e), d) == if spec_fd_lookup(entries, d) is Some {
            spec_fd_lookup(entries, d)
        } else if e.0 == d {
            Some(e.1)
        } else {
            None::<Meta>
        },
    decreases entries.len(),
{
    let n = entries.push(e);
    if entries.len() == 0 {
        assert(n[0] == e);
        assert(n.drop_first() =~= Seq::<(u64, Meta)>::empty());
        if e.0 != d {
            lemma_fd_absent(n, d);
        }
    } else {
        assert(n[0] == entries[0]);
        assert(n.drop_first() =~= entries.drop_first().push(e));
        lemma_fd_lookup_snoc(entries.drop_first(), e, d);
    }
}

/// Two survivors of the removal filter keep their relative order.
proof fn lemma_filter_sorted(entries: Seq<(u64, Meta)>, fd: u64, x: int, y: int)
    requires
        forall|i: int, j: int| 0 <= i < j < entries.len() ==> entries[i].0 < entries[j].0,
        0 <= x < y < entries.filter(|p: (u64, Meta)| p.0 != fd).len(),
    ensures
        entries.filter(|p: (u64, Meta)| p.0 != fd)[x].0 < entries.filter(
            |p: (u64, Meta)| p.0 != fd,
        )[y].0,
{
    lemma_filter_pred_sorted(entries, |p: (u64, Meta)| p.0 != fd, x, y);
}

/// Filtering preserves strict sortedness by descriptor number.
pub proof fn lemma_filter_pred_sorted(
    entries: Seq<(u64, Meta)>,
    p: spec_fn((u64, Meta)) -> bool,
    x: int,
    y: int,
)
    requires
        forall|i: int, j: int| 0 <= i < j < entries.len() ==> entries[i].0 < entries[j].0,
        0 <= x < y < entries.filter(p).len(),
    ensures
        entries.filter(p)[x].0 < entries.filter(p)[y].0,
    decreases entries.len(),
{
    reveal(Seq::filter);
    let f = entries.filter(p);
    if entries.len() > 0 {
        let front = entries.drop_last();
        assert forall|i: int, j: int| 0 <= i < j < front.len() implies front[i].0 < front[j].0 by {
            assert(front[i] == entries[i]);
            assert(front[j] == entries[j]);
        }
        if p(entries.last()) {
            if y == f.len() - 1 {
                // f[y] is the last element; f[x] came from the front.
                front.lemma_filter_pred(p, x);
                lemma_filter_member_of(front, p, x);
                let w = choose|w: int| 0 <= w < front.len() && front[w] == f[x];
                assert(entries[w] == front[w]);
                assert(entries[w].0 < entries.last().0);
            } else {
                lemma_filter_pred_sorted(front, p, x, y);
            }
        } else {
            lemma_filter_pred_sorted(front, p, x, y);
        }
    }
}

/// An element of a filtered sequence sits somewhere in the original.
proof fn lemma_filter_member_of(s: Seq<(u64, Meta)>, p: spec_fn((u64, Meta)) -> bool, k: int)
    requires
        0 <= k < s.filter(p).len(),
    ensures
        exists|w: int| 0 <= w < s.len() && s[w] == s.filter(p)[k],
    decreases s.len(),
{
    reveal(Seq::filter);
    if s.len() > 0 {
        let front = s.drop_last();
        if p(s.last()) && k == s.filter(p).len() - 1 {
            assert(s[s.len() - 1] == s.filter(p)[k]);
        } else {
            lemma_filter_member_of(front, p, k);
            let w = choose|w: int| 0 <= w < front.len() && front[w] == front.filter(p)[k];
            assert(s[w] == front[w]);
        }
    }
}

/// What a scan of fdinfo text for its `flags:` line yields.
pub enum FlagScan {
    /// No line opens with `flags:`.
    NoLine,
    /// The first `flags:` line's value, parsed as octal.
    Value(int),
    /// The first `flags:` line's value is not octal or does not fit.
    Bad,
}

/// The flag word the first `flags:`-prefixed line of fdinfo text carries.
pub open spec fn spec_fdinfo_flags(lines: Seq<Seq<char>>) -> FlagScan
    decreases lines.len(),
{
    if lines.len() == 0 {
        FlagScan::NoLine
    } else if lines[0].len() >= 6 && lines[0].take(6) == "flags:"@ {
        match crate::text::spec_octal_value(crate::text::spec_trim(lines[0].skip(6))) {
            Some(v) => if v <= i32::MAX {
                FlagScan::Value(v)
            } else {
                FlagScan::Bad
            },
            None => FlagScan::Bad,
        }
    } else {
        spec_fdinfo_flags(lines.drop_first())
    }
}

/// The flag word in `/proc/<pid>/fdinfo/<fd>` text: the value of the first
/// `flags:`-prefixed line, parsed as octal.
pub fn fdinfo_flags(content: &str) -> (r: Result<Option<i32>, Error>)
    ensures
        match r {
            Ok(Some(v)) => spec_fdinfo_flags(crate::text::spec_lines(content@)) == FlagScan::Value(
                v as int,
            ),
            Ok(None) => spec_fdinfo_flags(crate::text::spec_lines(content@)) == FlagScan::NoLine,
            Err(_) => spec_fdinfo_flags(crate::text::spec_lines(content@)) == FlagScan::Bad,
        },
{
    let lines = crate::text::split_lines(content);
    let ghost all = lines.deep_view();
    let mut i: usize = 0;
    proof {
        assert(all.skip(0) =~= all);
    }
    while i < lines.len()
        invariant
            i <= lines@.len(),
            all == lines.deep_view(),
            all == crate::text::spec_lines(content@),
            all.len() == lines@.len(),
            spec_fdinfo_flags(all) == spec_fdinfo_flags(all.skip(i as int)),
        decreases lines@.len() - i,
    {
        let line = &lines[i];
        let len = line.as_str().unicode_len();
        proof {
            assert(all.skip(i as int)[0] == line@);
            assert(all.skip(i as int).drop_first() =~= all.skip(i as int + 1));
        }
        if len >= 6 {
            let head = line.as_str().substring_char(0, 6);
            proof {
                assert(head@ =~= line@.take(6));
                reveal_strlit("flags:");
            }
            if str_eq(head, "flags:") {
                let rest = line.as_str().substring_char(6, len);
                proof {
                    assert(rest@ =~= line@.skip(6));
                }
                let trimmed = crate::text::trim(rest);
                return match parse_octal_i32(trimmed) {
                    Some(v) => Ok(Some(v)),
                    None => Err(Error::FdinfoFlag { flags: String::from_str(rest) }),
                };
            }
        }
        i += 1;
    }
    proof {
        assert(all.skip(lines@.len() as int) =~= Seq::<Seq<char>>::empty());
    }
    Ok(None)
}

/// The socket inode number a `socket:[N]` link target carries, when its
/// digits parse and fit.
pub open spec fn spec_socket_inode(target: Seq<char>) -> Option<int> {
    if target.len() > 9 && target.take(8) == "socket:["@ && target.last() == ']' {
        match spec_decimal_value(target.subrange(8, target.len() - 1)) {
            Some(v) => if v <= u64::MAX {
                Some(v)
            } else {
                None
            },
            None => None,
        }
    } else {
        None
    }
}

/// The type of an unresolved link target: a parsing `socket:[N]` is that
/// socket inode, a `pipe:[`-prefixed target is a pipe, anything else is
/// unknown.
pub open spec fn spec_link_type(target: Seq<char>) -> Type {
    if spec_socket_inode(target) is Some {
        Type::SocketInode { inode: spec_socket_inode(target).unwrap() as u64 }
    } else if target.len() >= 6 && target.take(6) == "pipe:["@ {
        Type::Fifo
    } else {
        Type::Unknown
    }
}

/// What a host stat of a canonicalized link target showed.
pub enum HostFileKind {
    Directory,
    File,
    Block,
    Char,
    Fifo,
    Other,
}

impl Type {
    /// Classify a `/proc/<pid>/fd/<fd>` link target. When the target
    /// resolved on the host, its file kind decides; otherwise a
    /// `socket:[N]` target is a socket inode, a `pipe:[...]` target is a
    /// pipe, and anything else is unknown.
    pub fn from_link_target(target: &str, host: Option<(HostFileKind, String)>) -> (r: Type)
        ensures
            match host {
                Some((kind, path)) => r == (match kind {
                    HostFileKind::Directory => Type::Directory { path },
                    HostFileKind::File => Type::File { path },
                    HostFileKind::Block => Type::Block { path },
                    HostFileKind::Char => Type::Char { path },
                    HostFileKind::Fifo => Type::Fifo,
                    HostFileKind::Other => Type::Unknown,
                }),
                None => r == spec_link_type(target@),
            },
    {
        proof {
            reveal_strlit("socket:[");
            reveal_strlit("pipe:[");
        }
        match host {
            Some((kind, path)) => match kind {
                HostFileKind::Directory => Type::Directory { path },
                HostFileKind::File => Type::File { path },
                HostFileKind::Block => Type::Block { path },
                HostFileKind::Char => Type::Char { path },
                HostFileKind::Fifo => Type::Fifo,
                HostFileKind::Other => Type::Unknown,
            },
            None => {
                let len = target.unicode_len();
                if len > 9 {
                    let head = target.substring_char(0, 8);
                    proof {
                        assert(head@ =~= target@.take(8));
                    }
                    if str_eq(head, "socket:[") && target.get_char(len - 1) == ']' {
                        let middle = target.substring_char(8, len - 1);
                        proof {
                            assert(middle@ =~= target@.subrange(8, target@.len() - 1));
                        }
                        if let Some(inode) = parse_decimal_u64(middle) {
                            return Type::SocketInode { inode };
                        }
                        proof {
                            assert(spec_socket_inode(target@) is None);
                        }
                    }
                }
                proof {
                    assert(spec_socket_inode(target@) is None);
                }
                if len >= 6 {
                    let head = target.substring_char(0, 6);
                    proof {
                        assert(head@ =~= target@.take(6));
                    }
                    if str_eq(head, "pipe:[") {
                        return Type::Fifo;
                    }
                }
                Type::Unknown
            },
        }
    }
}

} // verus!
